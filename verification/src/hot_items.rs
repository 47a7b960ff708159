//! The sliding-window top-key aggregator.
//!
//! Stage 1 buckets every bid into the slide whose boundary is the next
//! multiple of the slide width, maintains a per-key running count over the
//! trailing window of slides incrementally — add a slide's bucket when the
//! slide completes, subtract it when it ages out — and emits the top key
//! per evaluation instant. Stage 2 reduces the per-partition candidates to
//! a single global winner per instant.

use vstd::prelude::*;

use crate::auction_close::{is_due, spec_due};
use crate::expiry::ExpiryQueue;
use crate::merge::Mergeable;
use crate::state::StateCell;

verus! {

/// A per-key count, looked up from the back so that later entries shadow
/// earlier ones; the table keeps keys distinct, so nothing is shadowed.
pub open spec fn tbl_get(s: Seq<(u64, u64)>, k: u64) -> u64
    decreases s.len(),
{
    if s.len() == 0 {
        0
    } else if s.last().0 == k {
        s.last().1
    } else {
        tbl_get(s.drop_last(), k)
    }
}

/// Keys appear at most once.
pub open spec fn keys_distinct(s: Seq<(u64, u64)>) -> bool {
    forall|i: int, j: int| 0 <= i < j < s.len() ==> (#[trigger] s[i]).0 != (#[trigger] s[j]).0
}

/// With distinct keys the lookup is position-independent.
proof fn lemma_tbl_get_char(s: Seq<(u64, u64)>)
    requires
        keys_distinct(s),
    ensures
        forall|i: int| 0 <= i < s.len() ==> tbl_get(s, (#[trigger] s[i]).0) == s[i].1,
        forall|k: u64|
            (forall|i: int| 0 <= i < s.len() ==> (#[trigger] s[i]).0 != k) ==> tbl_get(s, k) == 0,
    decreases s.len(),
{
    if s.len() > 0 {
        assert(keys_distinct(s.drop_last())) by {
            assert(forall|i: int|
                0 <= i < s.drop_last().len() ==> s.drop_last()[i] == #[trigger] s[i]);
        }
        lemma_tbl_get_char(s.drop_last());
        assert forall|i: int| 0 <= i < s.len() implies tbl_get(s, (#[trigger] s[i]).0) == s[i].1 by {
            if i < s.len() - 1 {
                assert(s.drop_last()[i] == s[i]);
                assert(s.last().0 != s[i].0);
                assert(tbl_get(s.drop_last(), s[i].0) == s[i].1);
            }
        }
        assert forall|k: u64|
            (forall|i: int| 0 <= i < s.len() ==> (#[trigger] s[i]).0 != k) implies tbl_get(s, k)
            == 0 by {
            assert(s[s.len() - 1].0 != k);
            assert(forall|i: int|
                0 <= i < s.drop_last().len() ==> (#[trigger] s.drop_last()[i]).0 != k);
            assert(tbl_get(s, k) == tbl_get(s.drop_last(), k));
        }
    }
}

/// A table of per-key counts: the per-slide bucket and the window
/// accumulator are both one of these. Its counts are always positive —
/// a key whose count reaches zero is removed.
pub struct CountTable {
    entries: Vec<(u64, u64)>,
}

/// Counts of a record holding per-key tallies cannot be merged blindly
/// here: the aggregator updates them through explicit adds and subtracts,
/// so routing one through read-modify-write is forbidden.
impl Mergeable for CountTable {
    open spec fn merge_allowed() -> bool {
        false
    }

    open spec fn merge_ok(self, delta: Self) -> bool {
        false
    }

    open spec fn merge_spec(self, delta: Self) -> Self {
        self
    }

    fn merge(&self, delta: Self) -> Self {
        CountTable { entries: Vec::new() }
    }
}

impl CountTable {
    /// The count held for `k`, zero when absent.
    pub closed spec fn count(self, k: u64) -> u64 {
        tbl_get(self.entries@, k)
    }

    /// Keys are distinct and all held counts positive.
    pub closed spec fn wf(self) -> bool {
        &&& keys_distinct(self.entries@)
        &&& forall|i: int| 0 <= i < self.entries@.len() ==> (#[trigger] self.entries@[i]).1 >= 1
    }

    /// Whether any key is held.
    pub closed spec fn is_empty(self) -> bool {
        self.entries@.len() == 0
    }

    /// An empty table.
    pub fn new() -> (r: Self)
        ensures
            r.wf(),
            r.is_empty(),
            forall|k: u64| r.count(k) == 0,
    {
        let r = CountTable { entries: Vec::new() };
        proof {
            lemma_tbl_get_char(r.entries@);
        }
        r
    }

    /// Find the position of a key.
    fn position(&self, k: u64) -> (r: Option<usize>)
        ensures
            match r {
                Some(i) => i < self.entries@.len() && self.entries@[i as int].0 == k,
                None => forall|i: int| 0 <= i < self.entries@.len() ==> (#[trigger] self.entries@[i]).0 != k,
            },
    {
        let mut i: usize = 0;
        while i < self.entries.len()
            invariant
                i <= self.entries@.len(),
                forall|j: int| 0 <= j < i ==> (#[trigger] self.entries@[j]).0 != k,
            decreases self.entries@.len() - i,
        {
            if self.entries[i].0 == k {
                return Some(i);
            }
            i = i + 1;
        }
        None
    }

    /// Add `amount` to the count of `k` (installing the key if absent).
    pub fn bump(&mut self, k: u64, amount: u64)
        requires
            old(self).wf(),
            amount >= 1,
            old(self).count(k) + amount <= u64::MAX,
        ensures
            final(self).wf(),
            !final(self).is_empty(),
            final(self).count(k) == old(self).count(k) + amount,
            forall|k2: u64| k2 != k ==> final(self).count(k2) == old(self).count(k2),
    {
        proof {
            lemma_tbl_get_char(self.entries@);
        }
        let ghost s0 = self.entries@;
        let pos = self.position(k);
        match pos {
            Some(i) => {
                let cur = self.entries[i].1;
                let e = self.entries.remove(i);
                self.entries.push((k, cur + amount));
                proof {
                    assert(tbl_get(s0, k) == cur);
                    let s1 = self.entries@;
                    assert(s1.last() == (k, (cur + amount) as u64));
                    assert(keys_distinct(s1)) by {
                        assert forall|x: int, y: int| 0 <= x < y < s1.len() implies (
                        #[trigger] s1[x]).0 != (#[trigger] s1[y]).0 by {
                            if y < s1.len() - 1 {
                                let x0 = if x < i { x } else { x + 1 };
                                let y0 = if y < i { y } else { y + 1 };
                                assert(s1[x] == s0[x0] && s1[y] == s0[y0]);
                            } else {
                                let x0 = if x < i { x } else { x + 1 };
                                assert(s1[x] == s0[x0]);
                                assert(x0 != i);
                            }
                        }
                    }
                    lemma_tbl_get_char(s1);
                    assert forall|k2: u64| k2 != k implies tbl_get(s1, k2) == tbl_get(s0, k2) by {
                        if exists|j: int| 0 <= j < s0.len() && (#[trigger] s0[j]).0 == k2 {
                            let j = choose|j: int| 0 <= j < s0.len() && (#[trigger] s0[j]).0 == k2;
                            let j1 = if j < i { j } else { j - 1 };
                            assert(s1[j1] == s0[j]);
                            assert(tbl_get(s1, k2) == s0[j].1);
                        } else {
                            assert forall|j: int| 0 <= j < s1.len() implies (#[trigger] s1[j]).0
                                != k2 by {
                                if j < s1.len() - 1 {
                                    let j0 = if j < i { j } else { j + 1 };
                                    assert(s1[j] == s0[j0]);
                                }
                            }
                        }
                    }
                }
            }
            None => {
                self.entries.push((k, amount));
                proof {
                    assert(tbl_get(s0, k) == 0);
                    let s1 = self.entries@;
                    assert(keys_distinct(s1)) by {
                        assert forall|x: int, y: int| 0 <= x < y < s1.len() implies (
                        #[trigger] s1[x]).0 != (#[trigger] s1[y]).0 by {
                            if y < s1.len() - 1 {
                                assert(s1[x] == s0[x] && s1[y] == s0[y]);
                            } else {
                                assert(s1[x] == s0[x]);
                            }
                        }
                    }
                    lemma_tbl_get_char(s1);
                    assert forall|k2: u64| k2 != k implies tbl_get(s1, k2) == tbl_get(s0, k2) by {
                        if exists|j: int| 0 <= j < s0.len() && (#[trigger] s0[j]).0 == k2 {
                            let j = choose|j: int| 0 <= j < s0.len() && (#[trigger] s0[j]).0 == k2;
                            assert(s1[j] == s0[j]);
                            assert(tbl_get(s1, k2) == s0[j].1);
                        } else {
                            assert forall|j: int| 0 <= j < s1.len() implies (#[trigger] s1[j]).0
                                != k2 by {
                                if j < s1.len() - 1 {
                                    assert(s1[j] == s0[j]);
                                }
                            }
                        }
                    }
                }
            }
        }
    }

    /// Subtract `amount` from the count of `k`, removing the key when the
    /// count reaches zero. The caller must know the count covers it.
    pub fn reduce(&mut self, k: u64, amount: u64)
        requires
            old(self).wf(),
            amount >= 1,
            old(self).count(k) >= amount,
        ensures
            final(self).wf(),
            final(self).count(k) == old(self).count(k) - amount,
            forall|k2: u64| k2 != k ==> final(self).count(k2) == old(self).count(k2),
    {
        proof {
            lemma_tbl_get_char(self.entries@);
        }
        let ghost s0 = self.entries@;
        let pos = self.position(k);
        match pos {
            Some(i) => {
                let cur = self.entries[i].1;
                let e = self.entries.remove(i);
                proof {
                    assert(tbl_get(s0, k) == cur);
                    let s1 = self.entries@;
                    assert(keys_distinct(s1)) by {
                        assert forall|x: int, y: int| 0 <= x < y < s1.len() implies (
                        #[trigger] s1[x]).0 != (#[trigger] s1[y]).0 by {
                            let x0 = if x < i { x } else { x + 1 };
                            let y0 = if y < i { y } else { y + 1 };
                            assert(s1[x] == s0[x0] && s1[y] == s0[y0]);
                        }
                    }
                    lemma_tbl_get_char(s1);
                    assert(tbl_get(s1, k) == 0) by {
                        assert forall|j: int| 0 <= j < s1.len() implies (#[trigger] s1[j]).0
                            != k by {
                            let j0 = if j < i { j } else { j + 1 };
                            assert(s1[j] == s0[j0]);
                            assert(j0 != i);
                        }
                    }
                    assert forall|k2: u64| k2 != k implies tbl_get(s1, k2) == tbl_get(s0, k2) by {
                        if exists|j: int| 0 <= j < s0.len() && (#[trigger] s0[j]).0 == k2 {
                            let j = choose|j: int| 0 <= j < s0.len() && (#[trigger] s0[j]).0 == k2;
                            let j1 = if j < i { j } else { j - 1 };
                            assert(s1[j1] == s0[j]);
                            assert(tbl_get(s1, k2) == s0[j].1);
                        } else {
                            assert forall|j: int| 0 <= j < s1.len() implies (#[trigger] s1[j]).0
                                != k2 by {
                                let j0 = if j < i { j } else { j + 1 };
                                assert(s1[j] == s0[j0]);
                            }
                        }
                    }
                }
                if cur > amount {
                    self.bump(k, cur - amount);
                }
            }
            None => {
                proof {
                    assert(tbl_get(s0, k) == 0);
                    assert(false);
                }
            }
        }
    }

    /// How many keys are held.
    pub fn len(&self) -> (r: usize)
        ensures
            r == 0 <==> self.is_empty(),
    {
        self.entries.len()
    }

    /// The entry at a position (for iterating a bucket's keys).
    pub fn entry_at(&self, i: usize) -> (r: (u64, u64))
        requires
            self.wf(),
            i < self.key_count(),
        ensures
            r == self.entry_view(i as int),
    {
        self.entries[i]
    }

    /// The number of held entries, as a spec value.
    pub closed spec fn key_count(self) -> nat {
        self.entries@.len()
    }

    /// The entry at a position, as a spec value.
    pub closed spec fn entry_view(self, i: int) -> (u64, u64) {
        self.entries@[i]
    }

    /// Exposes the lookup characterization for entries.
    pub proof fn lemma_entries_characterize(&self)
        requires
            self.wf(),
        ensures
            forall|i: int|
                0 <= i < self.key_count() ==> self.count((#[trigger] self.entry_view(i)).0)
                    == self.entry_view(i).1 && self.entry_view(i).1 >= 1,
            forall|k: u64|
                self.count(k) != 0 ==> exists|i: int|
                    0 <= i < self.key_count() && (#[trigger] self.entry_view(i)).0 == k,
            forall|i: int, j: int|
                0 <= i < j < self.key_count() ==> (#[trigger] self.entry_view(i)).0 != (
                #[trigger] self.entry_view(j)).0,
    {
        lemma_tbl_get_char(self.entries@);
        assert forall|k: u64| self.count(k) != 0 implies exists|i: int|
            0 <= i < self.key_count() && (#[trigger] self.entry_view(i)).0 == k by {
            if forall|i: int| 0 <= i < self.entries@.len() ==> (#[trigger] self.entries@[i]).0
                != k {
                assert(tbl_get(self.entries@, k) == 0);
            } else {
                let i = choose|i: int|
                    0 <= i < self.entries@.len() && (#[trigger] self.entries@[i]).0 == k;
                assert(self.entry_view(i).0 == k);
            }
        }
    }

    /// Add every count of `other` into this table (the window gains a
    /// completed slide's bucket).
    pub fn add_table(&mut self, other: &CountTable)
        requires
            old(self).wf(),
            other.wf(),
            forall|k: u64| old(self).count(k) + other.count(k) <= u64::MAX,
        ensures
            final(self).wf(),
            forall|k: u64| final(self).count(k) == old(self).count(k) + other.count(k),
    {
        proof {
            other.lemma_entries_characterize();
        }
        let ghost orig = *old(self);
        let n = other.entries.len();
        let mut i: usize = 0;
        proof {
            assert(other.key_count() == n);
        }
        while i < n
            invariant
                self.wf(),
                other.wf(),
                other.key_count() == n,
                i <= n,
                forall|k: u64| orig.count(k) + other.count(k) <= u64::MAX,
                forall|j: int|
                    0 <= j < i ==> self.count((#[trigger] other.entry_view(j)).0) == orig.count(
                        other.entry_view(j).0,
                    ) + other.entry_view(j).1,
                forall|k: u64|
                    (forall|j: int| 0 <= j < i ==> (#[trigger] other.entry_view(j)).0 != k)
                        ==> #[trigger] self.count(k) == orig.count(k),
                forall|i2: int, j2: int|
                    0 <= i2 < other.key_count() && 0 <= j2 < other.key_count() && i2 != j2 ==> (
                    #[trigger] other.entry_view(i2)).0 != (#[trigger] other.entry_view(j2)).0,
                forall|j: int|
                    0 <= j < other.key_count() ==> other.count((#[trigger] other.entry_view(j)).0)
                        == other.entry_view(j).1 && other.entry_view(j).1 >= 1,
            decreases n - i,
        {
            let e = other.entry_at(i);
            proof {
                assert(e == other.entry_view(i as int));
                assert(self.count(e.0) == orig.count(e.0)) by {
                    assert forall|j: int| 0 <= j < i implies (#[trigger] other.entry_view(j)).0
                        != e.0 by {}
                }
                assert(other.count(e.0) == e.1);
            }
            self.bump(e.0, e.1);
            i = i + 1;
        }
        proof {
            assert forall|k: u64| self.count(k) == orig.count(k) + other.count(k) by {
                if other.count(k) == 0 {
                    assert forall|j: int| 0 <= j < other.key_count() implies (
                    #[trigger] other.entry_view(j)).0 != k by {
                        if other.entry_view(j).0 == k {
                            assert(other.count(k) == other.entry_view(j).1);
                        }
                    }
                    assert(self.count(k) == orig.count(k));
                } else {
                    let j = choose|j: int|
                        0 <= j < other.key_count() && (#[trigger] other.entry_view(j)).0 == k;
                    assert(self.count(k) == orig.count(k) + other.entry_view(j).1);
                }
            }
        }
    }

    /// Subtract every count of `other` from this table (the window loses
    /// an expired slide's bucket); keys reaching zero are removed. The
    /// caller must know each count is covered.
    pub fn sub_table(&mut self, other: &CountTable)
        requires
            old(self).wf(),
            other.wf(),
            forall|k: u64| other.count(k) <= old(self).count(k),
        ensures
            final(self).wf(),
            forall|k: u64| final(self).count(k) == old(self).count(k) - other.count(k),
    {
        proof {
            other.lemma_entries_characterize();
        }
        let ghost orig = *old(self);
        let n = other.entries.len();
        let mut i: usize = 0;
        proof {
            assert(other.key_count() == n);
        }
        while i < n
            invariant
                self.wf(),
                other.wf(),
                other.key_count() == n,
                i <= n,
                forall|k: u64| other.count(k) <= orig.count(k),
                forall|j: int|
                    0 <= j < i ==> self.count((#[trigger] other.entry_view(j)).0) == orig.count(
                        other.entry_view(j).0,
                    ) - other.entry_view(j).1,
                forall|k: u64|
                    (forall|j: int| 0 <= j < i ==> (#[trigger] other.entry_view(j)).0 != k)
                        ==> #[trigger] self.count(k) == orig.count(k),
                forall|i2: int, j2: int|
                    0 <= i2 < other.key_count() && 0 <= j2 < other.key_count() && i2 != j2 ==> (
                    #[trigger] other.entry_view(i2)).0 != (#[trigger] other.entry_view(j2)).0,
                forall|j: int|
                    0 <= j < other.key_count() ==> other.count((#[trigger] other.entry_view(j)).0)
                        == other.entry_view(j).1 && other.entry_view(j).1 >= 1,
            decreases n - i,
        {
            let e = other.entry_at(i);
            proof {
                assert(e == other.entry_view(i as int));
                assert(self.count(e.0) == orig.count(e.0)) by {
                    assert forall|j: int| 0 <= j < i implies (#[trigger] other.entry_view(j)).0
                        != e.0 by {}
                }
                assert(other.count(e.0) == e.1);
            }
            self.reduce(e.0, e.1);
            i = i + 1;
        }
        proof {
            assert forall|k: u64| self.count(k) == orig.count(k) - other.count(k) by {
                if other.count(k) == 0 {
                    assert forall|j: int| 0 <= j < other.key_count() implies (
                    #[trigger] other.entry_view(j)).0 != k by {
                        if other.entry_view(j).0 == k {
                            assert(other.count(k) == other.entry_view(j).1);
                        }
                    }
                    assert(self.count(k) == orig.count(k));
                } else {
                    let j = choose|j: int|
                        0 <= j < other.key_count() && (#[trigger] other.entry_view(j)).0 == k;
                    assert(self.count(k) == orig.count(k) - other.entry_view(j).1);
                }
            }
        }
    }

    /// The key with the maximum count; ties go to the larger key, so the
    /// choice is deterministic.
    pub fn max_entry(&self) -> (r: Option<(u64, u64)>)
        requires
            self.wf(),
        ensures
            match r {
                None => forall|k: u64| self.count(k) == 0,
                Some((k, c)) => {
                    &&& self.count(k) == c
                    &&& c >= 1
                    &&& forall|k2: u64|
                        #[trigger] self.count(k2) < c || (self.count(k2) == c && k2 <= k)
                },
            },
    {
        proof {
            lemma_tbl_get_char(self.entries@);
        }
        if self.entries.len() == 0 {
            proof {
                assert forall|k: u64| self.count(k) == 0 by {
                    assert(forall|i: int|
                        0 <= i < self.entries@.len() ==> (#[trigger] self.entries@[i]).0 != k);
                }
            }
            return None;
        }
        let mut best: usize = 0;
        let mut i: usize = 1;
        while i < self.entries.len()
            invariant
                best < self.entries@.len(),
                i <= self.entries@.len(),
                forall|j: int|
                    0 <= j < i ==> ((#[trigger] self.entries@[j]).1 < self.entries@[best as int].1
                        || (self.entries@[j].1 == self.entries@[best as int].1 && self.entries@[j].0
                        <= self.entries@[best as int].0)),
            decreases self.entries@.len() - i,
        {
            let cand = self.entries[i];
            let cur = self.entries[best];
            if cand.1 > cur.1 || (cand.1 == cur.1 && cand.0 > cur.0) {
                best = i;
            }
            i = i + 1;
        }
        let e = self.entries[best];
        proof {
            assert(tbl_get(self.entries@, e.0) == e.1);
            assert forall|k2: u64| #[trigger] self.count(k2) < e.1 || (self.count(k2) == e.1 && k2
                <= e.0) by {
                if self.count(k2) != 0 {
                    if forall|j: int| 0 <= j < self.entries@.len() ==> (
                    #[trigger] self.entries@[j]).0 != k2 {
                        assert(tbl_get(self.entries@, k2) == 0);
                    } else {
                        let j = choose|j: int|
                            0 <= j < self.entries@.len() && (#[trigger] self.entries@[j]).0 == k2;
                        assert(tbl_get(self.entries@, k2) == self.entries@[j].1);
                    }
                }
            }
        }
        Some(e)
    }
}

/// The slide boundary a time is bucketed into: the next multiple of the
/// slide width strictly above it.
pub open spec fn spec_slide_of(t: u64, w: u64) -> int
    recommends
        w > 0,
{
    (t as int / w as int + 1) * (w as int)
}

/// Executable form of [`spec_slide_of`].
pub fn slide_of(t: u64, w: u64) -> (r: u64)
    requires
        w > 0,
        spec_slide_of(t, w) <= u64::MAX,
    ensures
        r == spec_slide_of(t, w),
        r > t,
{
    let q: u64 = t / w;
    proof {
        assert((q as int + 1) * (w as int) > t) by (nonlinear_arith)
            requires
                w > 0,
                q == t as int / w as int,
        {}
        assert(q as int + 1 <= (q as int + 1) * (w as int)) by (nonlinear_arith)
            requires
                w >= 1,
        {}
    }
    (q + 1) * w
}

/// Whether slide boundary `s` lies inside the trailing window of `n`
/// slides of width `w`, evaluated at instant `at`.
pub open spec fn in_window(s: u64, at: u64, w: u64, n: u64) -> bool {
    s <= at && (s as int) > (at as int) - (n as int) * (w as int)
}

/// The number of recorded events `(key, slide)` for key `k` bucketed
/// exactly at slide `s`.
pub open spec fn slide_count(es: Seq<(u64, u64)>, s: u64, k: u64) -> nat
    decreases es.len(),
{
    if es.len() == 0 {
        0
    } else {
        slide_count(es.drop_last(), s, k) + (if es.last() == (k, s) {
            1nat
        } else {
            0nat
        })
    }
}

/// The number of recorded events for key `k` whose slide lies inside the
/// trailing window at instant `at`: the re-scan the maintained running
/// count is held against.
pub open spec fn window_count(es: Seq<(u64, u64)>, at: u64, w: u64, n: u64, k: u64) -> nat
    decreases es.len(),
{
    if es.len() == 0 {
        0
    } else {
        window_count(es.drop_last(), at, w, n, k) + (if es.last().0 == k && in_window(
            es.last().1,
            at,
            w,
            n,
        ) {
            1nat
        } else {
            0nat
        })
    }
}

/// Appending an event extends both counts by its own contribution.
proof fn lemma_counts_push(es: Seq<(u64, u64)>, e: (u64, u64), at: u64, w: u64, n: u64, s: u64, k: u64)
    ensures
        slide_count(es.push(e), s, k) == slide_count(es, s, k) + (if e == (k, s) {
            1nat
        } else {
            0nat
        }),
        window_count(es.push(e), at, w, n, k) == window_count(es, at, w, n, k) + (if e.0 == k
            && in_window(e.1, at, w, n) {
            1nat
        } else {
            0nat
        }),
{
    assert(es.push(e).drop_last() =~= es);
    assert(es.push(e).last() == e);
}

/// Both counts are bounded by the number of events, and jointly so when
/// the slide lies outside the window.
proof fn lemma_counts_bounded(es: Seq<(u64, u64)>, at: u64, w: u64, n: u64, s: u64, k: u64)
    ensures
        slide_count(es, s, k) <= es.len(),
        window_count(es, at, w, n, k) <= es.len(),
        !in_window(s, at, w, n) ==> slide_count(es, s, k) + window_count(es, at, w, n, k)
            <= es.len(),
    decreases es.len(),
{
    if es.len() > 0 {
        lemma_counts_bounded(es.drop_last(), at, w, n, s, k);
    }
}

/// A zero slide count means no event of that key at that slide, and a
/// positive one means there is such an event.
proof fn lemma_slide_count_zero(es: Seq<(u64, u64)>, s: u64, k: u64)
    ensures
        slide_count(es, s, k) == 0 <==> (forall|i: int| 0 <= i < es.len() ==> #[trigger] es[i]
            != (k, s)),
    decreases es.len(),
{
    if es.len() > 0 {
        lemma_slide_count_zero(es.drop_last(), s, k);
        assert(forall|i: int| 0 <= i < es.len() - 1 ==> #[trigger] es.drop_last()[i] == es[i]);
        if slide_count(es, s, k) == 0 {
            assert forall|i: int| 0 <= i < es.len() implies #[trigger] es[i] != (k, s) by {
                if i < es.len() - 1 {
                    assert(es.drop_last()[i] == es[i]);
                } else {
                    assert(es.last() != (k, s));
                }
            }
        } else {
            if slide_count(es.drop_last(), s, k) > 0 {
                let i = choose|i: int|
                    0 <= i < es.drop_last().len() && #[trigger] es.drop_last()[i] == (k, s);
                assert(es[i] == (k, s));
            } else {
                assert(es[es.len() - 1] == (k, s));
            }
        }
    }
}

/// A slide inside the window contributes no more than the window holds.
proof fn lemma_window_covers_slide(es: Seq<(u64, u64)>, at: u64, w: u64, n: u64, s: u64, k: u64)
    requires
        in_window(s, at, w, n),
    ensures
        slide_count(es, s, k) <= window_count(es, at, w, n, k),
    decreases es.len(),
{
    if es.len() > 0 {
        lemma_window_covers_slide(es.drop_last(), at, w, n, s, k);
    }
}

/// Advancing the evaluation instant from `at0` to `t` shifts the window
/// by exactly the completed slide `t` in and the expired slide `t - n·w`
/// out, provided no key event lies in a slide strictly between the old
/// and new boundaries on either edge.
proof fn lemma_window_shift(es: Seq<(u64, u64)>, at0: u64, t: u64, w: u64, n: u64, k: u64)
    requires
        at0 < t,
        w >= 1,
        n >= 1,
        (n as int) * (w as int) <= u64::MAX,
        forall|i: int|
            0 <= i < es.len() ==> !((#[trigger] es[i]).0 == k && at0 < es[i].1 < t),
        forall|i: int|
            0 <= i < es.len() ==> !((#[trigger] es[i]).0 == k && (at0 as int) - (n as int) * (
            w as int) < (es[i].1 as int) < (t as int) - (n as int) * (w as int)),
    ensures
        window_count(es, t, w, n, k) + (if t >= (n as int) * (w as int) {
            slide_count(es, (t - (n as int) * (w as int)) as u64, k)
        } else {
            0nat
        }) == window_count(es, at0, w, n, k) + slide_count(es, t, k),
    decreases es.len(),
{
    if es.len() > 0 {
        assert(forall|i: int| 0 <= i < es.len() - 1 ==> #[trigger] es.drop_last()[i] == es[i]);
        lemma_window_shift(es.drop_last(), at0, t, w, n, k);
        let e = es.last();
        assert(e == es[es.len() - 1]);
        let nw = (n as int) * (w as int);
        assert(nw >= 1) by (nonlinear_arith)
            requires
                n >= 1,
                w >= 1,
                nw == (n as int) * (w as int),
        {}
        if e.0 == k {
            let s = e.1;
            // each event lands on the same side of both window equations
            if s == t {
                assert(in_window(s, t, w, n));
                assert(!in_window(s, at0, w, n));
            } else if t >= nw && (s as int) == (t as int) - nw {
                assert(!in_window(s, t, w, n));
                assert(s as int <= at0 as int);
                assert(in_window(s, at0, w, n));
            } else if s as int > t as int {
                assert(!in_window(s, t, w, n));
                assert(!in_window(s, at0, w, n));
            } else if (s as int) > (t as int) - nw {
                assert(s as int <= at0 as int);
                assert(in_window(s, t, w, n));
                assert(in_window(s, at0, w, n));
            } else {
                assert(!in_window(s, t, w, n));
                assert((s as int) <= (at0 as int) - nw);
                assert(!in_window(s, at0, w, n));
            }
        }
    }
}

/// One per-partition instance of the hot-items pre-reduce (stage 1).
///
/// The ghost `events` field records every bid ever handed in, as a
/// `(key, slide)` pair, so that the maintained window counts can be held
/// against a full re-scan.
pub struct HotItems {
    slide_width: u64,
    window_slices: u64,
    buckets: StateCell<CountTable>,
    acc: CountTable,
    pending: ExpiryQueue,
    floor: u64,
    last_slide: u64,
    n_events: u64,
    events: Ghost<Seq<(u64, u64)>>,
    log: Ghost<Seq<(u64, (u64, u64))>>,
}

impl HotItems {
    /// The slide width the instance was built with.
    pub closed spec fn width(self) -> u64 {
        self.slide_width
    }

    /// The number of slides in the trailing window.
    pub closed spec fn slices(self) -> u64 {
        self.window_slices
    }

    /// Every bid ever handed in, as `(key, slide)` pairs in arrival order.
    pub closed spec fn recorded(self) -> Seq<(u64, u64)> {
        self.events@
    }

    /// Every emission ever made: (evaluation instant, (key, count)).
    pub closed spec fn emissions(self) -> Seq<(u64, (u64, u64))> {
        self.log@
    }

    /// The completeness bound consumed so far.
    pub closed spec fn floor_time(self) -> u64 {
        self.floor
    }

    /// The latest evaluation instant processed.
    pub closed spec fn current_slide(self) -> u64 {
        self.last_slide
    }

    /// The maintained running count for a key.
    pub closed spec fn maintained(self, k: u64) -> u64 {
        self.acc.count(k)
    }

    /// How many bids have been handed in.
    pub closed spec fn event_total(self) -> u64 {
        self.n_events
    }

    /// The window span in time units.
    spec fn nw(self) -> int {
        (self.window_slices as int) * (self.slide_width as int)
    }

    /// Invariant of one emission log entry: the emitted count is the
    /// exact window re-scan for its key, and no key outranks it.
    spec fn log_entry_inv(self, e: (u64, (u64, u64))) -> bool {
        &&& e.0 <= self.last_slide
        &&& e.1.1 >= 1
        &&& e.1.1 == window_count(self.events@, e.0, self.slide_width, self.window_slices, e.1.0)
        &&& forall|k2: u64|
            #[trigger] window_count(self.events@, e.0, self.slide_width, self.window_slices, k2)
                < e.1.1 || (window_count(self.events@, e.0, self.slide_width, self.window_slices, k2)
                == e.1.1 && k2 <= e.1.0)
    }

    /// The floor-independent part of the invariant.
    spec fn state_inv(self) -> bool {
        &&& self.slide_width >= 1
        &&& self.window_slices >= 1
        &&& self.nw() <= u64::MAX
        &&& self.buckets.wf()
        &&& self.acc.wf()
        &&& self.n_events == self.events@.len()
        &&& (forall|s: u64|
            #[trigger] self.buckets.contents().contains_key(s) ==> self.buckets.contents()[s].wf()
                && !self.buckets.contents()[s].is_empty())
        &&& (forall|s: u64, k: u64|
            self.buckets.contents().contains_key(s) ==> #[trigger] self.buckets.contents()[s].count(
                k,
            ) == slide_count(self.events@, s, k))
        &&& (forall|s: u64|
            #[trigger] self.buckets.contents().contains_key(s) ==> (s as int) + self.nw()
                > self.last_slide as int && s >= 1)
        &&& (forall|s: u64, k: u64|
            !self.buckets.contents().contains_key(s) && (s as int) + self.nw()
                > self.last_slide as int ==> #[trigger] slide_count(self.events@, s, k) == 0)
        &&& (forall|k: u64|
            #[trigger] self.acc.count(k) == window_count(
                self.events@,
                self.last_slide,
                self.slide_width,
                self.window_slices,
                k,
            ))
        &&& (forall|i: int| 0 <= i < self.events@.len() ==> (#[trigger] self.events@[i]).1 >= 1)
        &&& (forall|i: int|
            0 <= i < self.events@.len() && (#[trigger] self.events@[i]).1 > self.last_slide
                ==> exists|j: int|
                0 <= j < self.pending.entries().len() && (#[trigger] self.pending.entries()[j]).0
                    == self.events@[i].1)
        &&& (forall|s: u64|
            #[trigger] self.buckets.contents().contains_key(s) ==> exists|j: int|
                0 <= j < self.pending.entries().len() && (#[trigger] self.pending.entries()[j]).0
                    as int == s as int + self.nw())
        &&& (forall|i: int|
            0 <= i < self.log@.len() ==> self.log_entry_inv(#[trigger] self.log@[i]))
        &&& (forall|i: int, j: int|
            0 <= i <= j < self.log@.len() ==> (#[trigger] self.log@[i]).0 <= (
            #[trigger] self.log@[j]).0)
    }

    /// Full well-formedness between operator callbacks.
    pub closed spec fn wf(self) -> bool {
        &&& self.state_inv()
        &&& self.pending.all_at_or_after(self.floor)
        &&& self.last_slide <= self.floor
    }

    /// A fresh instance with the given slide width and window slice
    /// count, over the chosen completion mode.
    pub fn new(slide_width: u64, window_slices: u64, queued_backend: bool) -> (r: Self)
        requires
            slide_width >= 1,
            window_slices >= 1,
            (window_slices as int) * (slide_width as int) <= u64::MAX,
        ensures
            r.wf(),
            r.width() == slide_width,
            r.slices() == window_slices,
            r.recorded() == Seq::<(u64, u64)>::empty(),
            r.emissions() == Seq::<(u64, (u64, u64))>::empty(),
            r.floor_time() == 0,
            r.event_total() == 0,
    {
        let r = HotItems {
            slide_width,
            window_slices,
            buckets: if queued_backend {
                StateCell::new_queued()
            } else {
                StateCell::new_direct()
            },
            acc: CountTable::new(),
            pending: ExpiryQueue::new(),
            floor: 0,
            last_slide: 0,
            n_events: 0,
            events: Ghost(Seq::empty()),
            log: Ghost(Seq::empty()),
        };
        r
    }

    /// How many bids have been handed in, for callers to bound.
    pub fn recorded_total(&self) -> (r: u64)
        ensures
            r == self.event_total(),
    {
        self.n_events
    }

    /// Record one bid for `key` at event time `time`: bucket it into its
    /// slide and schedule the slide's evaluation and expiry.
    pub fn on_bid(&mut self, key: u64, time: u64)
        requires
            old(self).wf(),
            time >= old(self).floor_time(),
            spec_slide_of(time, old(self).width()) + (old(self).slices() as int) * (
            old(self).width() as int) <= u64::MAX,
            old(self).event_total() < u64::MAX,
        ensures
            final(self).wf(),
            final(self).width() == old(self).width(),
            final(self).slices() == old(self).slices(),
            final(self).floor_time() == old(self).floor_time(),
            final(self).current_slide() == old(self).current_slide(),
            final(self).emissions() == old(self).emissions(),
            final(self).event_total() == old(self).event_total() + 1,
            final(self).recorded() == old(self).recorded().push(
                (key, spec_slide_of(time, old(self).width()) as u64),
            ),
    {
        let ghost pre = *self;
        let w = self.slide_width;
        let n = self.window_slices;
        let slide = slide_of(time, w);
        let ghost es1 = pre.events@.push((key, slide));
        let bucket_opt = self.buckets.remove(slide);
        let mut bucket = match bucket_opt {
            Some(b) => b,
            None => CountTable::new(),
        };
        proof {
            lemma_counts_bounded(pre.events@, pre.last_slide, w, n, slide, key);
            if !pre.buckets.contents().contains_key(slide) {
                assert((slide as int) + pre.nw() > pre.last_slide as int) by {
                    assert(pre.nw() >= 1) by (nonlinear_arith)
                        requires
                            pre.window_slices >= 1,
                            pre.slide_width >= 1,
                            pre.nw() == (pre.window_slices as int) * (pre.slide_width as int),
                    {}
                }
                assert(slide_count(pre.events@, slide, key) == 0);
            }
            assert(bucket.count(key) == slide_count(pre.events@, slide, key));
        }
        let ghost b0 = bucket;
        bucket.bump(key, 1);
        self.buckets.insert(slide, bucket);
        self.pending.push(slide, slide);
        let expiry = slide + n * w;
        self.pending.push(expiry, slide);
        self.n_events = self.n_events + 1;
        proof {
            self.events@ = es1;
            let post = *self;
            assert(post.nw() == pre.nw());
            assert(post.nw() >= 1) by (nonlinear_arith)
                requires
                    post.window_slices >= 1,
                    post.slide_width >= 1,
                    post.nw() == (post.window_slices as int) * (post.slide_width as int),
            {}
            // per-slide counts gain only the new event's contribution
            assert forall|s: u64, k: u64| true implies #[trigger] slide_count(es1, s, k)
                == slide_count(pre.events@, s, k) + (if (key, slide) == (k, s) {
                1nat
            } else {
                0nat
            }) by {
                lemma_counts_push(pre.events@, (key, slide), pre.last_slide, w, n, s, k);
            }
            assert forall|s: u64| #[trigger] post.buckets.contents().contains_key(s) implies
                post.buckets.contents()[s].wf() && !post.buckets.contents()[s].is_empty() by {
                if s != slide {
                    assert(pre.buckets.contents().contains_key(s));
                }
            }
            assert forall|s: u64, k: u64| post.buckets.contents().contains_key(s) implies
                #[trigger] post.buckets.contents()[s].count(k) == slide_count(es1, s, k) by {
                if s == slide {
                    assert(post.buckets.contents()[s].count(k) == b0.count(k) + (if k == key {
                        1nat
                    } else {
                        0nat
                    }));
                    assert(b0.count(k) == slide_count(pre.events@, slide, k));
                } else {
                    assert(pre.buckets.contents().contains_key(s));
                    assert(post.buckets.contents()[s] == pre.buckets.contents()[s]);
                    assert(pre.buckets.contents()[s].count(k) == slide_count(pre.events@, s, k));
                }
            }
            assert forall|s: u64| #[trigger] post.buckets.contents().contains_key(s) implies (
            s as int) + post.nw() > post.last_slide as int && s >= 1 by {
                if s != slide {
                    assert(pre.buckets.contents().contains_key(s));
                }
            }
            assert forall|s: u64, k: u64|
                !post.buckets.contents().contains_key(s) && (s as int) + post.nw()
                    > post.last_slide as int implies #[trigger] slide_count(es1, s, k) == 0 by {
                assert(s != slide);
                assert(!pre.buckets.contents().contains_key(s));
                assert(slide_count(pre.events@, s, k) == 0);
            }
            // the new slide lies ahead of every evaluated instant, so the
            // maintained window counts are untouched
            assert forall|k: u64| #[trigger] post.acc.count(k) == window_count(
                es1,
                post.last_slide,
                w,
                n,
                k,
            ) by {
                lemma_counts_push(pre.events@, (key, slide), post.last_slide, w, n, slide, k);
                assert(!in_window(slide, post.last_slide, w, n));
            }
            assert forall|i: int|
                0 <= i < es1.len() && (#[trigger] es1[i]).1 > post.last_slide implies exists|j: int|
                0 <= j < post.pending.entries().len() && (#[trigger] post.pending.entries()[j]).0
                    == es1[i].1 by {
                if i < pre.events@.len() {
                    assert(pre.events@[i] == es1[i]);
                    let j = choose|j: int|
                        0 <= j < pre.pending.entries().len() && (
                        #[trigger] pre.pending.entries()[j]).0 == pre.events@[i].1;
                    assert(post.pending.entries()[j].0 == es1[i].1);
                } else {
                    assert(post.pending.entries()[pre.pending.entries().len() as int].0 == slide);
                }
            }
            assert forall|s: u64| #[trigger] post.buckets.contents().contains_key(s) implies exists|j: int|
                0 <= j < post.pending.entries().len() && (#[trigger] post.pending.entries()[j]).0
                    as int == s as int + post.nw() by {
                if s == slide {
                    assert(post.pending.entries()[pre.pending.entries().len() as int + 1].0 as int
                        == slide as int + post.nw());
                } else {
                    assert(pre.buckets.contents().contains_key(s));
                    let j = choose|j: int|
                        0 <= j < pre.pending.entries().len() && (
                        #[trigger] pre.pending.entries()[j]).0 as int == s as int + pre.nw();
                    assert(post.pending.entries()[j].0 as int == s as int + post.nw());
                }
            }
            // emitted counts are for instants the new event's slide lies beyond
            assert forall|i: int| 0 <= i < post.log@.len() implies post.log_entry_inv(
                #[trigger] post.log@[i],
            ) by {
                let e = post.log@[i];
                assert(pre.log_entry_inv(e));
                assert forall|k2: u64| true implies #[trigger] window_count(es1, e.0, w, n, k2)
                    == window_count(pre.events@, e.0, w, n, k2) by {
                    lemma_counts_push(pre.events@, (key, slide), e.0, w, n, slide, k2);
                    assert(!in_window(slide, e.0, w, n));
                }
            }
            assert forall|i: int| 0 <= i < post.pending.entries().len() implies (
            #[trigger] post.pending.entries()[i]).0 >= post.floor by {
                if i < pre.pending.entries().len() {
                    assert(post.pending.entries()[i] == pre.pending.entries()[i]);
                    assert(pre.pending.entries()[i].0 >= pre.floor);
                }
            }
        }
    }
}

impl HotItems {
    /// Invariant carried through one resolution round of stage 1.
    spec fn round_inv(pre: HotItems, cur: HotItems, bound: u64, outv: Seq<(u64, u64, u64)>) -> bool {
        &&& pre.wf()
        &&& bound >= pre.floor
        &&& cur.state_inv()
        &&& cur.slide_width == pre.slide_width
        &&& cur.window_slices == pre.window_slices
        &&& cur.events == pre.events
        &&& cur.n_events == pre.n_events
        &&& cur.floor == pre.floor
        &&& cur.last_slide >= pre.last_slide
        &&& cur.last_slide <= bound
        &&& cur.pending.all_at_or_after(pre.floor)
        &&& cur.log@.len() == pre.log@.len() + outv.len()
        &&& (forall|i: int| 0 <= i < pre.log@.len() ==> #[trigger] cur.log@[i] == pre.log@[i])
        &&& (forall|i: int|
            0 <= i < outv.len() ==> cur.log@[pre.log@.len() + i] == (
            (#[trigger] outv[i]).0,
            (outv[i].1, outv[i].2),
            ))
    }

    /// Consume an advanced completeness bound: process every scheduled
    /// slide notification strictly before it, in ascending time order.
    /// At each notification the completed slide's bucket is folded into
    /// the running window counts, the expired slide's bucket is folded
    /// out and dropped, and the top key with its exact window count is
    /// emitted as this partition's candidate for that instant.
    #[verifier::rlimit(100)]
    pub fn advance(&mut self, bound: u64) -> (out: Vec<(u64, u64, u64)>)
        requires
            old(self).wf(),
            bound >= old(self).floor_time(),
        ensures
            final(self).wf(),
            final(self).floor_time() == bound,
            final(self).width() == old(self).width(),
            final(self).slices() == old(self).slices(),
            final(self).recorded() == old(self).recorded(),
            final(self).event_total() == old(self).event_total(),
            final(self).emissions().len() == old(self).emissions().len() + out@.len(),
            forall|i: int|
                0 <= i < old(self).emissions().len() ==> final(self).emissions()[i] == old(
                    self,
                ).emissions()[i],
            forall|i: int|
                0 <= i < out@.len() ==> final(self).emissions()[old(self).emissions().len() + i]
                    == ((#[trigger] out@[i]).0, (out@[i].1, out@[i].2)),
            // instants strictly increase: at most one candidate per instant
            forall|i: int, j: int|
                0 <= i < j < out@.len() ==> (#[trigger] out@[i]).0 < (#[trigger] out@[j]).0,
            // every candidate carries the exact window count of its key,
            // and no key outranks it at its instant
            forall|i: int|
                0 <= i < out@.len() ==> (#[trigger] out@[i]).2 >= 1 && out@[i].2 == window_count(
                    old(self).recorded(),
                    out@[i].0,
                    old(self).width(),
                    old(self).slices(),
                    out@[i].1,
                ),
            forall|i: int, k2: u64|
                0 <= i < out@.len() ==> #[trigger] window_count(
                    old(self).recorded(),
                    out@[i].0,
                    old(self).width(),
                    old(self).slices(),
                    k2,
                ) < out@[i].2 || (window_count(
                    old(self).recorded(),
                    out@[i].0,
                    old(self).width(),
                    old(self).slices(),
                    k2,
                ) == out@[i].2 && k2 <= out@[i].1),
            // a recorded event's slide the bound proves past always yields
            // a candidate at that instant
            forall|i: int|
                0 <= i < old(self).recorded().len() && (#[trigger] old(self).recorded()[i]).1
                    > old(self).current_slide() && spec_due(old(self).recorded()[i].1, bound)
                    ==> exists|j: int|
                    0 <= j < out@.len() && (#[trigger] out@[j]).0 == old(self).recorded()[i].1,
    {
        let ghost pre = *self;
        let mut out: Vec<(u64, u64, u64)> = Vec::new();
        loop
            invariant
                Self::round_inv(pre, *self, bound, out@),
                forall|i: int| 0 <= i < out@.len() ==> (#[trigger] out@[i]).0 <= self.last_slide,
                forall|i: int, j: int|
                    0 <= i < j < out@.len() ==> (#[trigger] out@[i]).0 < (#[trigger] out@[j]).0,
                forall|i: int|
                    0 <= i < pre.events@.len() && (#[trigger] pre.events@[i]).1 > pre.last_slide
                        && spec_due(pre.events@[i].1, bound) ==> (exists|j: int|
                        0 <= j < out@.len() && (#[trigger] out@[j]).0 == pre.events@[i].1)
                        || pre.events@[i].1 > self.last_slide,
            ensures
                Self::round_inv(pre, *self, bound, out@),
                forall|i: int|
                    0 <= i < self.pending.entries().len() ==> !spec_due(
                        (#[trigger] self.pending.entries()[i]).0,
                        bound,
                    ),
            decreases self.pending.entries().len(),
        {
            let ghost iter = *self;
            let ghost out0 = out@;
            let due_head = match self.pending.peek_min() {
                None => false,
                Some(p) => is_due(p.0, bound),
            };
            if !due_head {
                break;
            }
            let popped = self.pending.pop_min();
            match popped {
                None => {
                    proof {
                        assert(false);
                    }
                }
                Some((t, skey)) => {
                    let ghost idx = choose|i: int|
                        0 <= i < iter.pending.entries().len() && iter.pending.entries()[i] == (
                        t,
                        skey,
                        ) && self.pending.entries() == iter.pending.entries().remove(i);
                    proof {
                        // the popped time is the minimum: survivors and all
                        // former entries sit at or after it
                        assert(spec_due(t, bound));
                        assert forall|j: int| 0 <= j < self.pending.entries().len() implies (
                        #[trigger] self.pending.entries()[j]).0 >= iter.floor && self.pending.entries()[j].0
                            >= t by {
                            if j < idx {
                                assert(self.pending.entries()[j] == iter.pending.entries()[j]);
                                assert(iter.pending.entries()[j].0 >= iter.floor);
                            } else {
                                assert(self.pending.entries()[j] == iter.pending.entries()[j + 1]);
                                assert(iter.pending.entries()[j + 1].0 >= iter.floor);
                            }
                        }
                    }
                    if t > self.last_slide {
                        let ghost lst0 = self.last_slide;
                        let ghost es = self.events@;
                        let ghost w = self.slide_width;
                        let ghost n = self.window_slices;
                        let ghost nwg = (n as int) * (w as int);
                        proof {
                            assert(nwg >= 1) by (nonlinear_arith)
                                requires
                                    n >= 1,
                                    w >= 1,
                                    nwg == (n as int) * (w as int),
                            {}
                            // between the previous and this evaluation instant
                            // no event was bucketed: its notification would
                            // still be scheduled before the minimum
                            assert forall|i: int| 0 <= i < es.len() implies !(lst0 < (
                            #[trigger] es[i]).1 < t) by {
                                if lst0 < es[i].1 < t {
                                    let j = choose|j: int|
                                        0 <= j < iter.pending.entries().len() && (
                                        #[trigger] iter.pending.entries()[j]).0 == es[i].1;
                                    assert(iter.pending.entries()[j].0 >= t);
                                }
                            }
                            // likewise nothing was bucketed in the slides that
                            // silently left the window
                            assert forall|i: int| 0 <= i < es.len() implies !((lst0 as int) - nwg
                                < ((#[trigger] es[i]).1 as int) < (t as int) - nwg) by {
                                if (lst0 as int) - nwg < (es[i].1 as int) < (t as int) - nwg {
                                    let s = es[i].1;
                                    if s > lst0 {
                                        let j = choose|j: int|
                                            0 <= j < iter.pending.entries().len() && (
                                            #[trigger] iter.pending.entries()[j]).0 == s;
                                        assert(iter.pending.entries()[j].0 >= t);
                                    } else if iter.buckets.contents().contains_key(s) {
                                        let j = choose|j: int|
                                            0 <= j < iter.pending.entries().len() && (
                                            #[trigger] iter.pending.entries()[j]).0 as int
                                                == s as int + iter.nw();
                                        assert(iter.pending.entries()[j].0 >= t);
                                    } else {
                                        assert(slide_count(es, s, es[i].0) == 0);
                                        lemma_slide_count_zero(es, s, es[i].0);
                                        assert(es[i] == (es[i].0, s));
                                    }
                                }
                            }
                        }
                        let b_opt = self.buckets.remove(t);
                        match b_opt {
                            Some(b) => {
                                proof {
                                    assert forall|k: u64| self.acc.count(k) + b.count(k)
                                        <= u64::MAX by {
                                        assert(b.count(k) == slide_count(es, t, k));
                                        assert(self.acc.count(k) == window_count(es, lst0, w, n, k));
                                        assert(!in_window(t, lst0, w, n));
                                        lemma_counts_bounded(es, lst0, w, n, t, k);
                                    }
                                }
                                self.acc.add_table(&b);
                                self.buckets.insert(t, b);
                            }
                            None => {
                                proof {
                                    assert forall|k: u64| true implies #[trigger] slide_count(
                                        es,
                                        t,
                                        k,
                                    ) == 0 by {
                                        assert((t as int) + iter.nw() > lst0 as int);
                                    }
                                }
                            }
                        }
                        proof {
                            assert forall|k: u64| #[trigger] self.acc.count(k) == window_count(
                                es,
                                lst0,
                                w,
                                n,
                                k,
                            ) + slide_count(es, t, k) by {}
                        }
                        let nwv = self.window_slices * self.slide_width;
                        if t >= nwv {
                            let s_old = t - nwv;
                            let b2_opt = self.buckets.remove(s_old);
                            match b2_opt {
                                Some(b2) => {
                                    proof {
                                        // the expiring bucket is still inside the
                                        // old window, so the running counts cover it
                                        assert(s_old <= lst0) by {
                                            if s_old > lst0 {
                                                assert(!b2.is_empty());
                                                b2.lemma_entries_characterize();
                                                let k0 = b2.entry_view(0).0;
                                                assert(b2.count(k0) >= 1);
                                                assert(slide_count(es, s_old, k0) >= 1);
                                                lemma_slide_count_zero(es, s_old, k0);
                                                let i0 = choose|i0: int|
                                                    0 <= i0 < es.len() && #[trigger] es[i0] == (
                                                    k0,
                                                    s_old,
                                                    );
                                                let j = choose|j: int|
                                                    0 <= j < iter.pending.entries().len() && (
                                                    #[trigger] iter.pending.entries()[j]).0
                                                        == s_old;
                                                assert(iter.pending.entries()[j].0 >= t);
                                            }
                                        }
                                        assert(in_window(s_old, lst0, w, n));
                                        assert forall|k: u64| b2.count(k) <= self.acc.count(k) by {
                                            assert(b2.count(k) == slide_count(es, s_old, k));
                                            lemma_window_covers_slide(es, lst0, w, n, s_old, k);
                                        }
                                    }
                                    self.acc.sub_table(&b2);
                                }
                                None => {
                                    proof {
                                        assert forall|k: u64| true implies #[trigger] slide_count(
                                            es,
                                            s_old,
                                            k,
                                        ) == 0 by {
                                            assert((s_old as int) + iter.nw() > lst0 as int);
                                        }
                                    }
                                }
                            }
                        }
                        self.last_slide = t;
                        proof {
                            // the incremental fold equals the shifted window
                            assert forall|k: u64| #[trigger] self.acc.count(k) == window_count(
                                es,
                                t,
                                w,
                                n,
                                k,
                            ) by {
                                lemma_window_shift(es, lst0, t, w, n, k);
                            }
                            // every remaining bucket is still inside or ahead
                            // of the shifted window
                            assert forall|s: u64| #[trigger] self.buckets.contents().contains_key(
                                s,
                            ) implies (s as int) + self.nw() > t as int && s >= 1 by {
                                if s as int + self.nw() <= t as int {
                                    assert(iter.buckets.contents().contains_key(s));
                                    let j = choose|j: int|
                                        0 <= j < iter.pending.entries().len() && (
                                        #[trigger] iter.pending.entries()[j]).0 as int == s as int
                                            + iter.nw();
                                    assert(iter.pending.entries()[j].0 >= t);
                                    assert(s as int + self.nw() == t as int);
                                    assert(t >= nwv);
                                    assert(!self.buckets.contents().contains_key(s));
                                }
                            }
                            // absent unexpired slides still hold no events
                            assert forall|s: u64, k: u64|
                                !self.buckets.contents().contains_key(s) && (s as int) + self.nw()
                                    > t as int implies #[trigger] slide_count(es, s, k) == 0 by {
                                if s == t {
                                } else {
                                    assert(!iter.buckets.contents().contains_key(s));
                                    assert((s as int) + iter.nw() > lst0 as int);
                                }
                            }
                            // surviving notifications still back future events
                            // and live buckets
                            assert forall|i: int|
                                0 <= i < es.len() && (#[trigger] es[i]).1 > t implies exists|j: int|
                                0 <= j < self.pending.entries().len() && (
                                #[trigger] self.pending.entries()[j]).0 == es[i].1 by {
                                let j = choose|j: int|
                                    0 <= j < iter.pending.entries().len() && (
                                    #[trigger] iter.pending.entries()[j]).0 == es[i].1;
                                assert(j != idx);
                                if j < idx {
                                    assert(self.pending.entries()[j].0 == es[i].1);
                                } else {
                                    assert(self.pending.entries()[j - 1].0 == es[i].1);
                                }
                            }
                            assert forall|s: u64| #[trigger] self.buckets.contents().contains_key(
                                s,
                            ) implies exists|j: int|
                                0 <= j < self.pending.entries().len() && (
                                #[trigger] self.pending.entries()[j]).0 as int == s as int
                                    + self.nw() by {
                                assert(iter.buckets.contents().contains_key(s));
                                let j = choose|j: int|
                                    0 <= j < iter.pending.entries().len() && (
                                    #[trigger] iter.pending.entries()[j]).0 as int == s as int
                                        + iter.nw();
                                assert(s as int + self.nw() > t as int);
                                assert(j != idx);
                                if j < idx {
                                    assert(self.pending.entries()[j].0 as int == s as int
                                        + self.nw());
                                } else {
                                    assert(self.pending.entries()[j - 1].0 as int == s as int
                                        + self.nw());
                                }
                            }
                            assert forall|i: int| 0 <= i < self.log@.len() implies self.log_entry_inv(
                                #[trigger] self.log@[i],
                            ) by {
                                assert(iter.log_entry_inv(iter.log@[i]));
                            }
                        }
                        let top = self.acc.max_entry();
                        match top {
                            Some((k, c)) => {
                                out.push((t, k, c));
                                proof {
                                    let ghost lg0 = self.log@;
                                    self.log@ = self.log@.push((t, (k, c)));
                                    assert forall|i: int| 0 <= i < self.log@.len() implies self.log_entry_inv(
                                        #[trigger] self.log@[i],
                                    ) by {
                                        if i < lg0.len() {
                                            assert(self.log@[i] == lg0[i]);
                                        } else {
                                            assert(self.log@[i] == (t, (k, c)));
                                            assert(self.acc.count(k) == c);
                                            assert forall|k2: u64| #[trigger] window_count(
                                                es,
                                                t,
                                                w,
                                                n,
                                                k2,
                                            ) < c || (window_count(es, t, w, n, k2) == c && k2
                                                <= k) by {
                                                assert(self.acc.count(k2) == window_count(
                                                    es,
                                                    t,
                                                    w,
                                                    n,
                                                    k2,
                                                ));
                                            }
                                        }
                                    }
                                    assert forall|i: int, j: int|
                                        0 <= i <= j < self.log@.len() implies (
                                    #[trigger] self.log@[i]).0 <= (#[trigger] self.log@[j]).0 by {
                                        if j < lg0.len() {
                                            assert(self.log@[i] == lg0[i] && self.log@[j]
                                                == lg0[j]);
                                        } else if i < lg0.len() {
                                            assert(self.log@[i] == lg0[i]);
                                            assert(iter.log_entry_inv(lg0[i]));
                                            assert(lg0[i].0 <= lst0);
                                        }
                                    }
                                    // output instants stay bounded and strictly rise
                                    assert(out@ == out0.push((t, k, c)));
                                    assert forall|i2: int| 0 <= i2 < out@.len() implies (
                                    #[trigger] out@[i2]).0 <= self.last_slide by {
                                        if i2 < out0.len() {
                                            assert(out@[i2] == out0[i2]);
                                            assert(out0[i2].0 <= lst0);
                                        }
                                    }
                                    assert forall|i2: int, j2: int|
                                        0 <= i2 < j2 < out@.len() implies (
                                    #[trigger] out@[i2]).0 < (#[trigger] out@[j2]).0 by {
                                        if j2 < out0.len() {
                                            assert(out@[i2] == out0[i2] && out@[j2] == out0[j2]);
                                        } else {
                                            assert(out@[i2] == out0[i2]);
                                            assert(out0[i2].0 <= lst0);
                                        }
                                    }
                                    // every settled event slide keeps its candidate
                                    assert forall|i2: int|
                                        0 <= i2 < pre.events@.len() && (
                                        #[trigger] pre.events@[i2]).1 > pre.last_slide
                                            && spec_due(pre.events@[i2].1, bound) implies (
                                    exists|j2: int|
                                        0 <= j2 < out@.len() && (#[trigger] out@[j2]).0
                                            == pre.events@[i2].1) || pre.events@[i2].1
                                        > self.last_slide by {
                                        let sv = pre.events@[i2].1;
                                        assert(es[i2] == pre.events@[i2]);
                                        if sv <= self.last_slide {
                                            if sv == t {
                                                assert(out@[out@.len() - 1].0 == t);
                                            } else if sv > lst0 {
                                                assert(!(lst0 < es[i2].1 < t));
                                                assert(false);
                                            } else {
                                                let j2 = choose|j2: int|
                                                    0 <= j2 < out0.len() && (
                                                    #[trigger] out0[j2]).0 == sv;
                                                assert(out@[j2] == out0[j2]);
                                            }
                                        }
                                    }
                                }
                            }
                            None => {
                                proof {
                                    // an empty result means no key holds a count:
                                    // no event is bucketed at this very instant
                                    assert forall|i2: int| 0 <= i2 < es.len() implies (
                                    #[trigger] es[i2]).1 != t by {
                                        if es[i2].1 == t {
                                            let k0 = es[i2].0;
                                            lemma_slide_count_zero(es, t, k0);
                                            assert(es[i2] == (k0, t));
                                            assert(in_window(t, t, w, n));
                                            lemma_window_covers_slide(es, t, w, n, t, k0);
                                            assert(self.acc.count(k0) == window_count(
                                                es,
                                                t,
                                                w,
                                                n,
                                                k0,
                                            ));
                                            assert(self.acc.count(k0) == 0);
                                        }
                                    }
                                    assert forall|i2: int|
                                        0 <= i2 < pre.events@.len() && (
                                        #[trigger] pre.events@[i2]).1 > pre.last_slide
                                            && spec_due(pre.events@[i2].1, bound) implies (
                                    exists|j2: int|
                                        0 <= j2 < out@.len() && (#[trigger] out@[j2]).0
                                            == pre.events@[i2].1) || pre.events@[i2].1
                                        > self.last_slide by {
                                        let sv = pre.events@[i2].1;
                                        assert(es[i2] == pre.events@[i2]);
                                        if sv <= self.last_slide {
                                            if sv == t {
                                                assert(es[i2].1 != t);
                                            } else if sv > lst0 {
                                                assert(!(lst0 < es[i2].1 < t));
                                                assert(false);
                                            } else {
                                                let j2 = choose|j2: int|
                                                    0 <= j2 < out0.len() && (
                                                    #[trigger] out0[j2]).0 == sv;
                                                assert(out@[j2] == out0[j2]);
                                            }
                                        }
                                    }
                                }
                            }
                        }
                        proof {
                            assert forall|i: int|
                                0 <= i < self.events@.len() && (#[trigger] self.events@[i]).1
                                    > self.last_slide implies exists|j: int|
                                0 <= j < self.pending.entries().len() && (
                                #[trigger] self.pending.entries()[j]).0 == self.events@[i].1 by {
                                let j = choose|j: int|
                                    0 <= j < iter.pending.entries().len() && (
                                    #[trigger] iter.pending.entries()[j]).0 == self.events@[i].1;
                                assert(j != idx);
                                if j < idx {
                                    assert(self.pending.entries()[j].0 == self.events@[i].1);
                                } else {
                                    assert(self.pending.entries()[j - 1].0 == self.events@[i].1);
                                }
                            }
                            assert forall|s: u64| #[trigger] self.buckets.contents().contains_key(
                                s,
                            ) implies exists|j: int|
                                0 <= j < self.pending.entries().len() && (
                                #[trigger] self.pending.entries()[j]).0 as int == s as int
                                    + self.nw() by {
                                assert(iter.buckets.contents().contains_key(s));
                                let j = choose|j: int|
                                    0 <= j < iter.pending.entries().len() && (
                                    #[trigger] iter.pending.entries()[j]).0 as int == s as int
                                        + iter.nw();
                                assert(s as int + self.nw() > t as int);
                                assert(j != idx);
                                if j < idx {
                                    assert(self.pending.entries()[j].0 as int == s as int
                                        + self.nw());
                                } else {
                                    assert(self.pending.entries()[j - 1].0 as int == s as int
                                        + self.nw());
                                }
                            }
                        }
                    } else {
                        proof {
                            // a duplicate or stale notification: a no-op, the
                            // scheduled backing entries survive the pop
                            assert forall|i: int|
                                0 <= i < self.events@.len() && (#[trigger] self.events@[i]).1
                                    > self.last_slide implies exists|j: int|
                                0 <= j < self.pending.entries().len() && (
                                #[trigger] self.pending.entries()[j]).0 == self.events@[i].1 by {
                                let j = choose|j: int|
                                    0 <= j < iter.pending.entries().len() && (
                                    #[trigger] iter.pending.entries()[j]).0 == self.events@[i].1;
                                assert(j != idx);
                                if j < idx {
                                    assert(self.pending.entries()[j].0 == self.events@[i].1);
                                } else {
                                    assert(self.pending.entries()[j - 1].0 == self.events@[i].1);
                                }
                            }
                            assert forall|s: u64| #[trigger] self.buckets.contents().contains_key(
                                s,
                            ) implies exists|j: int|
                                0 <= j < self.pending.entries().len() && (
                                #[trigger] self.pending.entries()[j]).0 as int == s as int
                                    + self.nw() by {
                                let j = choose|j: int|
                                    0 <= j < iter.pending.entries().len() && (
                                    #[trigger] iter.pending.entries()[j]).0 as int == s as int
                                        + iter.nw();
                                assert(s as int + self.nw() > self.last_slide as int);
                                assert(iter.pending.entries()[j].0 as int > self.last_slide as int);
                                assert(j != idx);
                                if j < idx {
                                    assert(self.pending.entries()[j].0 as int == s as int
                                        + self.nw());
                                } else {
                                    assert(self.pending.entries()[j - 1].0 as int == s as int
                                        + self.nw());
                                }
                            }
                        }
                    }
                }
            }
            proof {
                assert(self.state_inv()) by {
                    assert(self.buckets.wf());
                    assert(self.acc.wf());
                    assert(forall|s: u64|
                        #[trigger] self.buckets.contents().contains_key(s)
                            ==> self.buckets.contents()[s].wf() && !self.buckets.contents(
                        )[s].is_empty());
                    assert(forall|s: u64, k: u64|
                        self.buckets.contents().contains_key(s)
                            ==> #[trigger] self.buckets.contents()[s].count(k) == slide_count(
                            self.events@,
                            s,
                            k,
                        ));
                    assert(forall|s: u64|
                        #[trigger] self.buckets.contents().contains_key(s) ==> (s as int)
                            + self.nw() > self.last_slide as int && s >= 1);
                    assert(forall|s: u64, k: u64|
                        !self.buckets.contents().contains_key(s) && (s as int) + self.nw()
                            > self.last_slide as int ==> #[trigger] slide_count(
                            self.events@,
                            s,
                            k,
                        ) == 0);
                    assert(forall|k: u64|
                        #[trigger] self.acc.count(k) == window_count(
                            self.events@,
                            self.last_slide,
                            self.slide_width,
                            self.window_slices,
                            k,
                        ));
                    assert(forall|i: int|
                        0 <= i < self.events@.len() && (#[trigger] self.events@[i]).1
                            > self.last_slide ==> exists|j: int|
                            0 <= j < self.pending.entries().len() && (
                            #[trigger] self.pending.entries()[j]).0 == self.events@[i].1);
                    assert(forall|s: u64|
                        #[trigger] self.buckets.contents().contains_key(s) ==> exists|j: int|
                            0 <= j < self.pending.entries().len() && (
                            #[trigger] self.pending.entries()[j]).0 as int == s as int
                                + self.nw());
                    assert(forall|i: int|
                        0 <= i < self.log@.len() ==> self.log_entry_inv(#[trigger] self.log@[i]));
                    assert(forall|i: int, j: int|
                        0 <= i <= j < self.log@.len() ==> (#[trigger] self.log@[i]).0 <= (
                        #[trigger] self.log@[j]).0);
                }
                assert(self.pending.all_at_or_after(pre.floor));
                assert(self.last_slide <= bound);
                assert(self.log@.len() == pre.log@.len() + out@.len());
                assert(forall|i: int|
                    0 <= i < pre.log@.len() ==> #[trigger] self.log@[i] == pre.log@[i]);
                assert(forall|i: int|
                    0 <= i < out@.len() ==> self.log@[pre.log@.len() + i] == (
                    (#[trigger] out@[i]).0,
                    (out@[i].1, out@[i].2),
                    ));
            }
        }
        let ghost fin0 = *self;
        self.floor = bound;
        proof {
            lemma_hot_state_congruence(fin0, *self);
            assert forall|i: int| 0 <= i < self.pending.entries().len() implies (
            #[trigger] self.pending.entries()[i]).0 >= bound by {
                assert(!spec_due(self.pending.entries()[i].0, bound));
            }
            let post = *self;
            // completeness: a due event slide beyond the last processed
            // instant would still carry a due notification
            assert forall|i: int|
                0 <= i < pre.events@.len() && (#[trigger] pre.events@[i]).1 > pre.last_slide
                    && spec_due(pre.events@[i].1, bound) implies exists|j: int|
                0 <= j < out@.len() && (#[trigger] out@[j]).0 == pre.events@[i].1 by {
                if pre.events@[i].1 > fin0.last_slide {
                    assert(fin0.events@[i] == pre.events@[i]);
                    let j = choose|j: int|
                        0 <= j < fin0.pending.entries().len() && (
                        #[trigger] fin0.pending.entries()[j]).0 == fin0.events@[i].1;
                    assert(!spec_due(fin0.pending.entries()[j].0, bound));
                    assert(false);
                }
            }
            // each candidate's exactness and rank, read off its log entry
            assert forall|i: int| 0 <= i < out@.len() implies (#[trigger] out@[i]).2 >= 1
                && out@[i].2 == window_count(
                pre.events@,
                out@[i].0,
                pre.slide_width,
                pre.window_slices,
                out@[i].1,
            ) by {
                assert(post.log@[pre.log@.len() + i] == (out@[i].0, (out@[i].1, out@[i].2)));
                assert(post.log_entry_inv(post.log@[pre.log@.len() + i]));
            }
            assert forall|i: int, k2: u64| 0 <= i < out@.len() implies #[trigger] window_count(
                pre.events@,
                out@[i].0,
                pre.slide_width,
                pre.window_slices,
                k2,
            ) < out@[i].2 || (window_count(
                pre.events@,
                out@[i].0,
                pre.slide_width,
                pre.window_slices,
                k2,
            ) == out@[i].2 && k2 <= out@[i].1) by {
                assert(post.log@[pre.log@.len() + i] == (out@[i].0, (out@[i].1, out@[i].2)));
                assert(post.log_entry_inv(post.log@[pre.log@.len() + i]));
            }
        }
        out
    }
}

/// Window-sum exactness law: at every evaluation instant, the maintained
/// per-key running count equals the exact count obtained by re-scanning
/// all recorded events whose bucketed slide lies within the trailing
/// window — it is never recomputed from a full scan, only folded
/// incrementally, yet always agrees with one.
pub proof fn lemma_window_exactness(op: HotItems, k: u64)
    requires
        op.wf(),
    ensures
        op.maintained(k) == window_count(
            op.recorded(),
            op.current_slide(),
            op.width(),
            op.slices(),
            k,
        ),
{
}

/// Every emitted candidate carries the exact window count of its key at
/// its instant, and no other key outranks it (ties fall to the larger
/// key, deterministically).
pub proof fn lemma_candidate_exact(op: HotItems, i: int)
    requires
        op.wf(),
        0 <= i < op.emissions().len(),
    ensures
        op.emissions()[i].1.1 == window_count(
            op.recorded(),
            op.emissions()[i].0,
            op.width(),
            op.slices(),
            op.emissions()[i].1.0,
        ),
        op.emissions()[i].1.1 >= 1,
        forall|k2: u64|
            #[trigger] window_count(op.recorded(), op.emissions()[i].0, op.width(), op.slices(), k2)
                < op.emissions()[i].1.1 || (window_count(
                op.recorded(),
                op.emissions()[i].0,
                op.width(),
                op.slices(),
                k2,
            ) == op.emissions()[i].1.1 && k2 <= op.emissions()[i].1.0),
{
}

/// Monotonic-output law for the pre-reduce: emitted candidate timestamps
/// never decrease.
pub proof fn lemma_hot_monotonic_output(op: HotItems, i: int, j: int)
    requires
        op.wf(),
        0 <= i <= j < op.emissions().len(),
    ensures
        op.emissions()[i].0 <= op.emissions()[j].0,
{
}

/// The floor-independent invariant depends only on the state fields, not
/// on the consumed bound.
proof fn lemma_hot_state_congruence(s1: HotItems, s2: HotItems)
    requires
        s1.state_inv(),
        s2.slide_width == s1.slide_width,
        s2.window_slices == s1.window_slices,
        s2.buckets == s1.buckets,
        s2.acc == s1.acc,
        s2.pending == s1.pending,
        s2.last_slide == s1.last_slide,
        s2.n_events == s1.n_events,
        s2.events == s1.events,
        s2.log == s1.log,
    ensures
        s2.state_inv(),
{
    assert(s2.nw() == s1.nw());
    assert forall|s: u64, k: u64| s2.buckets.contents().contains_key(s) implies
        #[trigger] s2.buckets.contents()[s].count(k) == slide_count(s2.events@, s, k) by {
        assert(s1.buckets.contents()[s].count(k) == slide_count(s1.events@, s, k));
    }
    assert forall|s: u64, k: u64|
        !s2.buckets.contents().contains_key(s) && (s as int) + s2.nw() > s2.last_slide as int implies
        #[trigger] slide_count(s2.events@, s, k) == 0 by {
        assert(slide_count(s1.events@, s, k) == 0);
    }
    assert forall|k: u64| true implies #[trigger] s2.acc.count(k) == window_count(
        s2.events@,
        s2.last_slide,
        s2.slide_width,
        s2.window_slices,
        k,
    ) by {
        assert(s1.acc.count(k) == window_count(
            s1.events@,
            s1.last_slide,
            s1.slide_width,
            s1.window_slices,
            k,
        ));
    }
    assert forall|i: int| 0 <= i < s2.log@.len() implies s2.log_entry_inv(
        #[trigger] s2.log@[i],
    ) by {
        assert(s1.log_entry_inv(s1.log@[i]));
        assert(s2.log@[i] == s1.log@[i]);
    }
}

/// A per-partition candidate: a key and its window count.
#[derive(Clone, Copy, PartialEq, Eq, Structural, Debug)]
pub struct Candidate {
    pub key: u64,
    pub count: u64,
}

/// A candidate cell holds the single best candidate seen for an instant:
/// replacement is a plain conditional overwrite, never a merge, so
/// read-modify-write is forbidden on it.
impl Mergeable for Candidate {
    open spec fn merge_allowed() -> bool {
        false
    }

    open spec fn merge_ok(self, delta: Self) -> bool {
        false
    }

    open spec fn merge_spec(self, delta: Self) -> Self {
        self
    }

    fn merge(&self, delta: Self) -> Self {
        Candidate { key: 0, count: 0 }
    }
}

/// The candidate a conditional-overwrite cell retains from a sequence of
/// arrivals: the first candidate whose count no later one strictly beats.
pub open spec fn retained(s: Seq<(u64, u64)>) -> (u64, u64)
    recommends
        s.len() > 0,
    decreases s.len(),
{
    if s.len() <= 1 {
        s[0]
    } else {
        let p = retained(s.drop_last());
        if s.last().1 > p.1 {
            s.last()
        } else {
            p
        }
    }
}

/// The global reduce of the hot-items query (stage 2): all per-partition
/// candidates for one evaluation instant are routed here; only the single
/// best-count candidate per instant is retained, and on the instant's
/// notification its key is emitted and the entry discarded.
pub struct TopAll {
    best: StateCell<Candidate>,
    pending: ExpiryQueue,
    floor: u64,
    cands: Ghost<Map<u64, Seq<(u64, u64)>>>,
    log: Ghost<Seq<(u64, u64)>>,
}

impl TopAll {
    /// The candidates received so far for an instant, in arrival order.
    pub closed spec fn candidates(self, t: u64) -> Seq<(u64, u64)> {
        if self.cands@.contains_key(t) {
            self.cands@[t]
        } else {
            Seq::empty()
        }
    }

    /// Every emission ever made: (instant, winning key).
    pub closed spec fn emissions(self) -> Seq<(u64, u64)> {
        self.log@
    }

    /// The completeness bound consumed so far.
    pub closed spec fn floor_time(self) -> u64 {
        self.floor
    }

    /// The retained cell contents.
    pub closed spec fn held(self) -> Map<u64, Candidate> {
        self.best.contents()
    }

    /// Invariant of one emission log entry.
    spec fn log_entry_inv(self, e: (u64, u64)) -> bool {
        &&& self.candidates(e.0).len() > 0
        &&& e.1 == retained(self.candidates(e.0)).0
    }

    /// Full well-formedness between operator callbacks.
    pub closed spec fn wf(self) -> bool {
        &&& self.best.wf()
        &&& (forall|t: u64|
            #[trigger] self.best.contents().contains_key(t) ==> self.candidates(t).len() > 0
                && self.best.contents()[t] == (Candidate {
                key: retained(self.candidates(t)).0,
                count: retained(self.candidates(t)).1,
            }))
        &&& (forall|t: u64|
            #[trigger] self.best.contents().contains_key(t) ==> exists|j: int|
                0 <= j < self.pending.entries().len() && (#[trigger] self.pending.entries()[j]).0
                    == t)
        &&& self.pending.all_at_or_after(self.floor)
        &&& (forall|i: int|
            0 <= i < self.log@.len() ==> self.log_entry_inv(#[trigger] self.log@[i]))
        &&& (forall|i: int| 0 <= i < self.log@.len() ==> (#[trigger] self.log@[i]).0 < self.floor)
        &&& (forall|i: int, j: int|
            0 <= i <= j < self.log@.len() ==> (#[trigger] self.log@[i]).0 <= (
            #[trigger] self.log@[j]).0)
        &&& (forall|t: u64|
            #[trigger] self.best.contents().contains_key(t) ==> t >= self.floor)
        &&& (forall|t: u64|
            (#[trigger] self.candidates(t)).len() > 0 ==> self.best.contents().contains_key(t)
                || t < self.floor)
        &&& (forall|j: int|
            0 <= j < self.pending.entries().len() ==> (#[trigger] self.pending.entries()[j]).0
                < u64::MAX)
        &&& (forall|i: int, j: int|
            0 <= i < j < self.log@.len() ==> (#[trigger] self.log@[i]).0 != (
            #[trigger] self.log@[j]).0)
    }

    /// A fresh instance over the chosen completion mode.
    pub fn new(queued_backend: bool) -> (r: Self)
        ensures
            r.wf(),
            r.emissions() == Seq::<(u64, u64)>::empty(),
            r.floor_time() == 0,
            forall|t: u64| r.candidates(t) == Seq::<(u64, u64)>::empty(),
    {
        TopAll {
            best: if queued_backend {
                StateCell::new_queued()
            } else {
                StateCell::new_direct()
            },
            pending: ExpiryQueue::new(),
            floor: 0,
            cands: Ghost(Map::empty()),
            log: Ghost(Seq::empty()),
        }
    }

    /// Take one per-partition candidate for instant `t`: it replaces the
    /// retained one only when its count is strictly larger, so on a count
    /// tie the earliest arrival wins.
    pub fn on_candidate(&mut self, t: u64, key: u64, count: u64)
        requires
            old(self).wf(),
            t >= old(self).floor_time(),
            // the largest time is reserved for the drained-frontier sentinel
            t < u64::MAX,
        ensures
            final(self).wf(),
            final(self).floor_time() == old(self).floor_time(),
            final(self).emissions() == old(self).emissions(),
            final(self).candidates(t) == old(self).candidates(t).push((key, count)),
            forall|t2: u64| t2 != t ==> final(self).candidates(t2) == old(self).candidates(t2),
    {
        let ghost pre = *self;
        let ghost s1 = pre.candidates(t).push((key, count));
        let cur_opt = self.best.remove(t);
        match cur_opt {
            Some(cur) => {
                if count > cur.count {
                    self.best.insert(t, Candidate { key, count });
                } else {
                    self.best.insert(t, cur);
                }
            }
            None => {
                self.best.insert(t, Candidate { key, count });
                self.pending.push(t, t);
            }
        }
        proof {
            self.cands@ = self.cands@.insert(t, s1);
            let post = *self;
            assert(s1.drop_last() =~= pre.candidates(t));
            assert(s1.last() == (key, count));
            if pre.best.contents().contains_key(t) {
                assert(pre.candidates(t).len() > 0);
                assert(retained(s1) == if count > retained(pre.candidates(t)).1 {
                    (key, count)
                } else {
                    retained(pre.candidates(t))
                });
            } else {
                // a fresh instant: were any candidate already recorded, the
                // cell would hold one (it is only emptied by emission, and
                // emitted instants sit below the floor)
                assert(pre.candidates(t).len() == 0);
                assert(s1.len() == 1);
                assert(retained(s1) == (key, count));
            }
            assert forall|t2: u64| #[trigger] post.best.contents().contains_key(t2) implies
                post.candidates(t2).len() > 0 && post.best.contents()[t2] == (Candidate {
                key: retained(post.candidates(t2)).0,
                count: retained(post.candidates(t2)).1,
            }) by {
                if t2 != t {
                    assert(pre.best.contents().contains_key(t2));
                    assert(post.best.contents()[t2] == pre.best.contents()[t2]);
                    assert(post.candidates(t2) == pre.candidates(t2));
                }
            }
            assert forall|t2: u64| #[trigger] post.best.contents().contains_key(t2) implies exists|j: int|
                0 <= j < post.pending.entries().len() && (#[trigger] post.pending.entries()[j]).0
                    == t2 by {
                if t2 == t && !pre.best.contents().contains_key(t) {
                    assert(post.pending.entries()[pre.pending.entries().len() as int].0 == t);
                } else {
                    assert(pre.best.contents().contains_key(t2));
                    let j = choose|j: int|
                        0 <= j < pre.pending.entries().len() && (
                        #[trigger] pre.pending.entries()[j]).0 == t2;
                    assert(post.pending.entries()[j].0 == t2);
                }
            }
            assert forall|i: int| 0 <= i < post.pending.entries().len() implies (
            #[trigger] post.pending.entries()[i]).0 >= post.floor by {
                if i < pre.pending.entries().len() {
                    assert(post.pending.entries()[i] == pre.pending.entries()[i]);
                    assert(pre.pending.entries()[i].0 >= pre.floor);
                }
            }
            assert forall|i: int| 0 <= i < post.log@.len() implies post.log_entry_inv(
                #[trigger] post.log@[i],
            ) by {
                assert(pre.log_entry_inv(pre.log@[i]));
                assert(post.log@[i] == pre.log@[i]);
                assert(pre.log@[i].0 < pre.floor);
                assert(post.candidates(pre.log@[i].0) == pre.candidates(pre.log@[i].0));
            }
            assert forall|t2: u64| (#[trigger] post.candidates(t2)).len() > 0 implies
                post.best.contents().contains_key(t2) || t2 < post.floor by {
                if t2 != t {
                    assert(post.candidates(t2) == pre.candidates(t2));
                }
            }
        }
    }

    /// Consume an advanced completeness bound: emit, for every due
    /// retained instant, exactly one pair — the instant with its retained
    /// winning key — and discard the entry, never to be re-emitted.
    pub fn advance(&mut self, bound: u64) -> (out: Vec<(u64, u64)>)
        requires
            old(self).wf(),
            bound >= old(self).floor_time(),
        ensures
            final(self).wf(),
            final(self).floor_time() == bound,
            forall|t: u64| final(self).candidates(t) == old(self).candidates(t),
            final(self).emissions().len() == old(self).emissions().len() + out@.len(),
            forall|i: int|
                0 <= i < old(self).emissions().len() ==> final(self).emissions()[i] == old(
                    self,
                ).emissions()[i],
            forall|i: int|
                0 <= i < out@.len() ==> final(self).emissions()[old(self).emissions().len() + i]
                    == #[trigger] out@[i],
            // a due instant with a retained candidate is always resolved,
            // and its retained winner is emitted
            forall|t: u64|
                (#[trigger] old(self).held().contains_key(t)) && spec_due(t, bound)
                    ==> !final(self).held().contains_key(t),
            forall|t: u64|
                (#[trigger] old(self).held().contains_key(t)) && spec_due(t, bound)
                    ==> exists|i: int|
                    0 <= i < out@.len() && out@[i] == (t, retained(old(self).candidates(t)).0),
            // each instant is resolved and emitted at most once
            forall|i: int, j: int|
                0 <= i < j < out@.len() ==> (#[trigger] out@[i]).0 != (#[trigger] out@[j]).0,
    {
        let ghost pre = *self;
        let mut out: Vec<(u64, u64)> = Vec::new();
        loop
            invariant
                pre.wf(),
                bound >= pre.floor,
                self.best.wf(),
                self.floor == pre.floor,
                self.cands == pre.cands,
                (forall|t: u64|
                    #[trigger] self.best.contents().contains_key(t) ==> pre.best.contents(
                    ).contains_key(t) && self.best.contents()[t] == pre.best.contents()[t]),
                (forall|t: u64|
                    #[trigger] self.best.contents().contains_key(t) ==> exists|j: int|
                        0 <= j < self.pending.entries().len() && (
                        #[trigger] self.pending.entries()[j]).0 == t),
                self.pending.all_at_or_after(pre.floor),
                self.log@.len() == pre.log@.len() + out@.len(),
                (forall|i: int| 0 <= i < pre.log@.len() ==> #[trigger] self.log@[i] == pre.log@[i]),
                (forall|i: int|
                    0 <= i < out@.len() ==> self.log@[pre.log@.len() + i] == #[trigger] out@[i]),
                (forall|i: int|
                    pre.log@.len() <= i < self.log@.len() ==> pre.log_entry_inv(
                        #[trigger] self.log@[i],
                    ) && spec_due(self.log@[i].0, bound) && self.log@[i].0 >= pre.floor
                        && self.log@[i].0 < u64::MAX),
                (forall|i: int, j: int|
                    0 <= i <= j < self.log@.len() ==> (#[trigger] self.log@[i]).0 <= (
                    #[trigger] self.log@[j]).0),
                (forall|i: int, j: int|
                    pre.log@.len() <= i < self.log@.len() && 0 <= j
                        < self.pending.entries().len() ==> (#[trigger] self.log@[i]).0 <= (
                    #[trigger] self.pending.entries()[j]).0),
                (forall|j: int|
                    0 <= j < self.pending.entries().len() ==> (
                    #[trigger] self.pending.entries()[j]).0 < u64::MAX),
                (forall|t: u64|
                    (#[trigger] pre.candidates(t)).len() > 0 ==> self.best.contents().contains_key(
                        t,
                    ) || t < pre.floor || (spec_due(t, bound) && t < u64::MAX)),
                (forall|t: u64|
                    (#[trigger] pre.held().contains_key(t)) && spec_due(t, bound)
                        ==> self.best.contents().contains_key(t) || (exists|i: int|
                        0 <= i < out@.len() && out@[i] == (t, retained(pre.candidates(t)).0))),
                (forall|i: int|
                    0 <= i < out@.len() ==> !self.best.contents().contains_key(
                        (#[trigger] out@[i]).0,
                    )),
                (forall|i: int, j: int|
                    0 <= i < j < self.log@.len() ==> (#[trigger] self.log@[i]).0 != (
                    #[trigger] self.log@[j]).0),
            ensures
                self.floor == pre.floor,
                self.cands == pre.cands,
                forall|i: int|
                    0 <= i < self.pending.entries().len() ==> !spec_due(
                        (#[trigger] self.pending.entries()[i]).0,
                        bound,
                    ),
            decreases self.pending.entries().len(),
        {
            let ghost iter = *self;
            let ghost out0 = out@;
            let due_head = match self.pending.peek_min() {
                None => false,
                Some(p) => is_due(p.0, bound),
            };
            if !due_head {
                break;
            }
            let popped = self.pending.pop_min();
            match popped {
                None => {
                    proof {
                        assert(false);
                    }
                }
                Some((t, _tk)) => {
                    let ghost idx = choose|i: int|
                        0 <= i < iter.pending.entries().len() && iter.pending.entries()[i] == (
                        t,
                        _tk,
                        ) && self.pending.entries() == iter.pending.entries().remove(i);
                    proof {
                        assert(spec_due(t, bound));
                        assert(iter.pending.entries()[idx].0 >= pre.floor);
                        assert forall|j: int| 0 <= j < self.pending.entries().len() implies (
                        #[trigger] self.pending.entries()[j]).0 >= pre.floor
                            && self.pending.entries()[j].0 >= t by {
                            if j < idx {
                                assert(self.pending.entries()[j] == iter.pending.entries()[j]);
                                assert(iter.pending.entries()[j].0 >= pre.floor);
                            } else {
                                assert(self.pending.entries()[j] == iter.pending.entries()[j + 1]);
                                assert(iter.pending.entries()[j + 1].0 >= pre.floor);
                            }
                        }
                    }
                    let won = self.best.remove(t);
                    match won {
                        Some(c) => {
                            out.push((t, c.key));
                            proof {
                                let ghost lg0 = self.log@;
                                self.log@ = self.log@.push((t, c.key));
                                assert(pre.best.contents().contains_key(t));
                                assert(pre.candidates(t).len() > 0);
                                assert(c.key == retained(pre.candidates(t)).0);
                                assert forall|i: int, j: int|
                                    0 <= i <= j < self.log@.len() implies (
                                #[trigger] self.log@[i]).0 <= (#[trigger] self.log@[j]).0 by {
                                    if j == self.log@.len() - 1 && i < j {
                                        assert(self.log@[i] == lg0[i]);
                                        if i < pre.log@.len() {
                                            assert(pre.log@[i].0 < pre.floor);
                                            assert(iter.pending.entries()[idx].0 >= pre.floor);
                                        } else {
                                            // emissions of this round follow pop order
                                            assert(lg0[i].0 <= iter.pending.entries()[idx].0);
                                        }
                                    } else if j < self.log@.len() - 1 {
                                        assert(self.log@[i] == lg0[i] && self.log@[j] == lg0[j]);
                                    }
                                }
                                assert forall|i: int, j: int|
                                    pre.log@.len() <= i < self.log@.len() && 0 <= j
                                        < self.pending.entries().len() implies (
                                #[trigger] self.log@[i]).0 <= (
                                #[trigger] self.pending.entries()[j]).0 by {
                                    if i < lg0.len() {
                                        assert(self.log@[i] == lg0[i]);
                                    }
                                    assert(self.pending.entries()[j].0 >= t);
                                }
                                // the emitted key is the retained winner of its instant
                                assert(c == pre.best.contents()[t]);
                                assert(c.key == retained(pre.candidates(t)).0);
                                assert(out@ == out0.push((t, c.key)));
                                // the resolved instant leaves the cell, so it can
                                // never be emitted again
                                assert forall|i2: int| 0 <= i2 < out@.len() implies !self.best.contents().contains_key(
                                    (#[trigger] out@[i2]).0,
                                ) by {
                                    if i2 < out0.len() {
                                        assert(out@[i2] == out0[i2]);
                                        assert(!iter.best.contents().contains_key(out0[i2].0));
                                    }
                                }
                                assert forall|i2: int, j2: int|
                                    0 <= i2 < j2 < self.log@.len() implies (
                                #[trigger] self.log@[i2]).0 != (#[trigger] self.log@[j2]).0 by {
                                    if j2 < lg0.len() {
                                        assert(self.log@[i2] == lg0[i2] && self.log@[j2]
                                            == lg0[j2]);
                                    } else {
                                        assert(self.log@[j2].0 == t);
                                        assert(self.log@[i2] == lg0[i2]);
                                        if i2 < pre.log@.len() {
                                            assert(pre.log@[i2].0 < pre.floor);
                                            assert(iter.pending.entries()[idx].0 >= pre.floor);
                                        } else {
                                            assert(lg0[i2] == out0[i2 - pre.log@.len()]);
                                            assert(!iter.best.contents().contains_key(
                                                out0[i2 - pre.log@.len()].0,
                                            ));
                                            assert(iter.best.contents().contains_key(t));
                                        }
                                    }
                                }
                                assert forall|t2: u64|
                                    (#[trigger] pre.held().contains_key(t2)) && spec_due(
                                        t2,
                                        bound,
                                    ) implies self.best.contents().contains_key(t2) || (exists|i: int|
                                    0 <= i < out@.len() && out@[i] == (
                                    t2,
                                    retained(pre.candidates(t2)).0,
                                    )) by {
                                    if t2 == t {
                                        assert(out@[out@.len() - 1] == (
                                        t,
                                        retained(pre.candidates(t)).0,
                                        ));
                                    } else {
                                        if !iter.best.contents().contains_key(t2) {
                                            let w = choose|w: int|
                                                0 <= w < out0.len() && out0[w] == (
                                                t2,
                                                retained(pre.candidates(t2)).0,
                                                );
                                            assert(out@[w] == out0[w]);
                                        }
                                    }
                                }
                            }
                        }
                        None => {}
                    }
                    proof {
                        assert forall|t2: u64| #[trigger] self.best.contents().contains_key(
                            t2,
                        ) implies exists|j: int|
                            0 <= j < self.pending.entries().len() && (
                            #[trigger] self.pending.entries()[j]).0 == t2 by {
                            assert(iter.best.contents().contains_key(t2));
                            let j = choose|j: int|
                                0 <= j < iter.pending.entries().len() && (
                                #[trigger] iter.pending.entries()[j]).0 == t2;
                            assert(t2 != t);
                            assert(j != idx);
                            if j < idx {
                                assert(self.pending.entries()[j].0 == t2);
                            } else {
                                assert(self.pending.entries()[j - 1].0 == t2);
                            }
                        }
                    }
                }
            }
        }
        let ghost lp = *self;
        self.floor = bound;
        proof {
            let post = *self;
            assert forall|t2: u64| #[trigger] post.best.contents().contains_key(t2) implies
                post.candidates(t2).len() > 0 && post.best.contents()[t2] == (Candidate {
                key: retained(post.candidates(t2)).0,
                count: retained(post.candidates(t2)).1,
            }) && t2 >= post.floor by {
                assert(pre.best.contents().contains_key(t2));
                assert(pre.candidates(t2).len() > 0);
                let j = choose|j: int|
                    0 <= j < lp.pending.entries().len() && (#[trigger] lp.pending.entries()[j]).0
                        == t2;
                assert(!spec_due(lp.pending.entries()[j].0, bound));
            }
            assert forall|i: int| 0 <= i < post.log@.len() implies post.log_entry_inv(
                #[trigger] post.log@[i],
            ) && post.log@[i].0 < post.floor by {
                if i < pre.log@.len() {
                    assert(pre.log_entry_inv(pre.log@[i]));
                    assert(post.log@[i] == pre.log@[i]);
                    assert(pre.log@[i].0 < pre.floor);
                } else {
                    assert(pre.log_entry_inv(post.log@[i]));
                    assert(spec_due(post.log@[i].0, bound));
                }
            }
            assert forall|i: int| 0 <= i < post.pending.entries().len() implies (
            #[trigger] post.pending.entries()[i]).0 >= bound by {
                assert(!spec_due(post.pending.entries()[i].0, bound));
            }
            assert forall|t2: u64|
                (#[trigger] pre.held().contains_key(t2)) && spec_due(t2, bound) implies !post.held(
            ).contains_key(t2) by {
                if post.best.contents().contains_key(t2) {
                    let j = choose|j: int|
                        0 <= j < lp.pending.entries().len() && (
                        #[trigger] lp.pending.entries()[j]).0 == t2;
                    assert(!spec_due(lp.pending.entries()[j].0, bound));
                }
            }
            assert forall|t2: u64|
                (#[trigger] pre.held().contains_key(t2)) && spec_due(t2, bound) implies exists|i: int|
                0 <= i < out@.len() && out@[i] == (t2, retained(pre.candidates(t2)).0) by {
                if lp.best.contents().contains_key(t2) {
                    let j = choose|j: int|
                        0 <= j < lp.pending.entries().len() && (
                        #[trigger] lp.pending.entries()[j]).0 == t2;
                    assert(!spec_due(lp.pending.entries()[j].0, bound));
                }
            }
            assert forall|t2: u64| (#[trigger] post.candidates(t2)).len() > 0 implies
                post.best.contents().contains_key(t2) || t2 < post.floor by {
                assert(post.candidates(t2) == pre.candidates(t2));
                if !post.best.contents().contains_key(t2) {
                    if t2 < pre.floor {
                    } else {
                        assert(spec_due(t2, bound) && t2 < u64::MAX);
                    }
                }
            }
            assert forall|i: int, j: int| 0 <= i < j < out@.len() implies (
            #[trigger] out@[i]).0 != (#[trigger] out@[j]).0 by {
                assert(post.log@[pre.log@.len() + i] == out@[i]);
                assert(post.log@[pre.log@.len() + j] == out@[j]);
            }
            assert(forall|j: int|
                0 <= j < post.pending.entries().len() ==> (#[trigger] post.pending.entries()[j]).0
                    < u64::MAX);
        }
        out
    }
}

/// Global-winner law: every key emitted by the global reduce is the
/// retained best-count candidate of its instant — the first candidate no
/// later arrival strictly outbid; emission times never decrease, and no
/// instant is emitted twice.
pub proof fn lemma_global_winner(op: TopAll, i: int, j: int)
    requires
        op.wf(),
        0 <= i <= j < op.emissions().len(),
    ensures
        op.candidates(op.emissions()[i].0).len() > 0,
        op.emissions()[i].1 == retained(op.candidates(op.emissions()[i].0)).0,
        op.emissions()[i].0 <= op.emissions()[j].0,
        i < j ==> op.emissions()[i].0 != op.emissions()[j].0,
{
}

} // verus!
