//! The range store and the lookup engine.
//!
//! Records live in natural row order (the load order); an index permutation
//! sorted by `range_start` stands beside them. A lookup returns the first
//! containing record in row order, through either of two plans: an indexed
//! plan that narrows candidates through the sorted index, and a full scan.
//! Both plans meet the same contract; the pivot only picks between them.

use vstd::prelude::*;
use crate::record::{contains_addr, models_of, RangeRecord, RecordModel};

verus! {

/// The two physical strategies for the same logical query.
#[derive(Clone, Copy, Debug, PartialEq, Eq)]
pub enum QueryPlan {
    Indexed,
    FullScan,
}

/// Address at which the engine switches plans: a measured constant, tuned
/// against one dataset snapshot, to be re-measured when the data changes.
pub const PLAN_PIVOT: u32 = 1216605195;

/// Rows per bulk-insert batch during a load.
pub const BATCH_ROWS: usize = 512;

/// Plan selection: addresses below the pivot use the indexed plan, addresses
/// at or above it use the full scan.
pub fn choose_plan(target: u32) -> (p: QueryPlan)
    ensures
        p == (if target < PLAN_PIVOT {
            QueryPlan::Indexed
        } else {
            QueryPlan::FullScan
        }),
{
    if target < PLAN_PIVOT {
        QueryPlan::Indexed
    } else {
        QueryPlan::FullScan
    }
}

/// Position of the first record at or after `i` whose range contains `a`.
pub open spec fn first_hit_from(s: Seq<RecordModel>, a: u32, i: int) -> Option<int>
    decreases s.len() - i,
{
    if i < 0 || i >= s.len() {
        None
    } else if contains_addr(s[i], a) {
        Some(i)
    } else {
        first_hit_from(s, a, i + 1)
    }
}

/// Position of the first record in row order whose range contains `a`.
pub open spec fn first_hit(s: Seq<RecordModel>, a: u32) -> Option<int> {
    first_hit_from(s, a, 0)
}

/// `first_hit_from` finds the least containing position, or none at all.
pub proof fn lemma_first_hit(s: Seq<RecordModel>, a: u32, i: int)
    requires
        0 <= i,
    ensures
        match first_hit_from(s, a, i) {
            Some(j) => i <= j < s.len() && contains_addr(s[j], a) && (forall|k: int|
                i <= k < j ==> !contains_addr(s[k], a)),
            None => forall|k: int| i <= k < s.len() ==> !contains_addr(s[k], a),
        },
    decreases s.len() - i,
{
    if i < s.len() && !contains_addr(s[i], a) {
        lemma_first_hit(s, a, i + 1);
    }
}

/// Converse: a least containing position pins the value of `first_hit_from`.
pub proof fn lemma_first_hit_is(s: Seq<RecordModel>, a: u32, i: int, j: int)
    requires
        0 <= i <= j < s.len(),
        contains_addr(s[j], a),
        forall|k: int| i <= k < j ==> !contains_addr(s[k], a),
    ensures
        first_hit_from(s, a, i) == Some(j),
    decreases j - i,
{
    if i < j {
        lemma_first_hit_is(s, a, i + 1, j);
    }
}

/// What any lookup must return: the first containing record in row order,
/// or nothing when no range contains the address.
pub open spec fn find_post(s: Seq<RecordModel>, a: u32, r: Option<RangeRecord>) -> bool {
    match first_hit(s, a) {
        Some(i) => r matches Some(rec) && rec@ == s[i],
        None => r is None,
    }
}

/// The ordered store: records in row order plus an index sorted by start.
pub struct RangeStore {
    records: Vec<RangeRecord>,
    index: Vec<usize>,
}

impl View for RangeStore {
    type V = Seq<RecordModel>;

    closed spec fn view(&self) -> Seq<RecordModel> {
        models_of(self.records@)
    }
}

impl RangeStore {
    /// Row `r` appears somewhere in the index.
    spec fn in_index(&self, r: int) -> bool {
        exists|k: int| 0 <= k < self.index@.len() && self.index@[k] == r
    }

    /// The index is a start-ordered enumeration of all rows.
    pub closed spec fn wf(&self) -> bool {
        &&& self.index@.len() == self.records@.len()
        &&& forall|k: int|
            0 <= k < self.index@.len() ==> (#[trigger] self.index@[k]) < self.records@.len()
        &&& forall|p: int, q: int|
            0 <= p < q < self.index@.len()
                ==> self.records@[#[trigger] self.index@[p] as int]@.range_start
                <= self.records@[#[trigger] self.index@[q] as int]@.range_start
        &&& forall|r: int| 0 <= r < self.records@.len() ==> #[trigger] self.in_index(r)
    }

    /// An empty store.
    pub fn new() -> (s: Self)
        ensures
            s@ == Seq::<RecordModel>::empty(),
            s.wf(),
    {
        let s = RangeStore { records: Vec::new(), index: Vec::new() };
        proof {
            assert(s@ =~= Seq::<RecordModel>::empty());
        }
        s
    }

    /// Number of loaded records.
    pub fn len(&self) -> (n: usize)
        ensures
            n == self@.len(),
    {
        self.records.len()
    }

    /// Copy of the record at row `i`.
    pub fn get(&self, i: usize) -> (r: RangeRecord)
        requires
            i < self@.len(),
        ensures
            r@ == self@[i as int],
    {
        proof {
            assert(self@[i as int] == self.records@[i as int]@);
        }
        self.records[i].clone()
    }

    /// First index position whose start exceeds `start`, or the index length.
    fn insert_pos(&self, start: u32) -> (k: usize)
        requires
            self.wf(),
        ensures
            k <= self.index@.len(),
            forall|j: int|
                0 <= j < k ==> self.records@[#[trigger] self.index@[j] as int]@.range_start
                    <= start,
            k < self.index@.len() ==> self.records@[self.index@[k as int] as int]@.range_start
                > start,
    {
        let mut k: usize = 0;
        while k < self.index.len()
            invariant
                self.wf(),
                k <= self.index@.len(),
                forall|j: int|
                    0 <= j < k ==> self.records@[#[trigger] self.index@[j] as int]@.range_start
                        <= start,
            decreases self.index@.len() - k,
        {
            let row = self.index[k];
            if self.records[row].range_start > start {
                return k;
            }
            k = k + 1;
        }
        k
    }

    /// Append one row and thread it into the sorted index.
    fn push_row(&mut self, rec: RangeRecord)
        requires
            old(self).wf(),
        ensures
            final(self).wf(),
            final(self)@ == old(self)@.push(rec@),
    {
        let n = self.records.len();
        let k = self.insert_pos(rec.range_start);
        self.records.push(rec);
        self.index.insert(k, n);
        proof {
            let oldrecs = old(self).records@;
            let oldidx = old(self).index@;
            let newrecs = self.records@;
            let newidx = self.index@;
            assert(newrecs =~= oldrecs.push(rec));
            assert(newidx =~= oldidx.insert(k as int, n));
            assert(self@ =~= old(self)@.push(rec@));
            // bounds and old rows keep their records
            assert forall|j: int| 0 <= j < newidx.len() implies (#[trigger] newidx[j])
                < newrecs.len() by {
                if j < k {
                    assert(newidx[j] == oldidx[j]);
                } else if j > k {
                    assert(newidx[j] == oldidx[j - 1]);
                }
            }
            assert forall|p: int, q: int| 0 <= p < q < newidx.len() implies newrecs[#[trigger]
                newidx[p] as int]@.range_start <= newrecs[#[trigger] newidx[q] as int]@.range_start
                by {
                let kk = k as int;
                if p < kk && q < kk {
                    assert(newidx[p] == oldidx[p] && newidx[q] == oldidx[q]);
                } else if p < kk && q == kk {
                    assert(newidx[p] == oldidx[p] && newidx[q] == n);
                } else if p < kk && q > kk {
                    assert(newidx[p] == oldidx[p] && newidx[q] == oldidx[q - 1]);
                } else if p == kk && q > kk {
                    assert(newidx[q] == oldidx[q - 1] && kk <= q - 1);
                    assert(oldrecs[oldidx[kk] as int]@.range_start <= oldrecs[oldidx[q - 1]
                        as int]@.range_start);
                } else {
                    assert(newidx[p] == oldidx[p - 1] && newidx[q] == oldidx[q - 1]);
                }
            }
            // every row is still indexed, and the new one is
            assert forall|r: int| 0 <= r < newrecs.len() implies #[trigger] self.in_index(r) by {
                if r < n {
                    assert(old(self).in_index(r));
                    let k0 = choose|k0: int|
                        0 <= k0 < oldidx.len() && oldidx[k0] == r;
                    if k0 < k as int {
                        assert(newidx[k0] == r);
                    } else {
                        assert(newidx[k0 + 1] == r);
                    }
                } else {
                    assert(newidx[k as int] == n);
                }
            }
        }
    }

    /// Bulk-insert one batch: the rows land at the end, in batch order.
    pub fn insert_batch(&mut self, batch: &Vec<RangeRecord>)
        requires
            old(self).wf(),
        ensures
            final(self).wf(),
            final(self)@ == old(self)@ + models_of(batch@),
    {
        let mut i: usize = 0;
        proof {
            assert(self@ =~= old(self)@ + models_of(batch@.take(0)));
        }
        while i < batch.len()
            invariant
                self.wf(),
                i <= batch@.len(),
                self@ == old(self)@ + models_of(batch@.take(i as int)),
            decreases batch@.len() - i,
        {
            let rec = batch[i].clone();
            self.push_row(rec);
            i = i + 1;
            proof {
                assert(models_of(batch@.take(i as int)) =~= models_of(
                    batch@.take(i as int - 1),
                ).push(batch@[i as int - 1]@));
                assert(self@ =~= old(self)@ + models_of(batch@.take(i as int)));
            }
        }
        proof {
            assert(batch@.take(batch@.len() as int) =~= batch@);
        }
    }

    /// Drop everything, then load the given records in batches of
    /// `BATCH_ROWS`, keeping their order as the row order.
    pub fn reload(&mut self, records: Vec<RangeRecord>)
        ensures
            final(self).wf(),
            final(self)@ == models_of(records@),
    {
        self.records = Vec::new();
        self.index = Vec::new();
        let ghost all = records@;
        let mut rest = records;
        proof {
            assert(self@ =~= Seq::<RecordModel>::empty());
            assert(models_of(all) =~= self@ + models_of(rest@));
        }
        while rest.len() > BATCH_ROWS
            invariant
                self.wf(),
                models_of(all) == self@ + models_of(rest@),
            decreases rest@.len(),
        {
            let ghost before = rest@;
            let tail = rest.split_off(BATCH_ROWS);
            self.insert_batch(&rest);
            rest = tail;
            proof {
                assert(models_of(before) =~= models_of(before.take(BATCH_ROWS as int))
                    + models_of(before.skip(BATCH_ROWS as int)));
                assert(models_of(all) =~= self@ + models_of(rest@));
            }
        }
        self.insert_batch(&rest);
        proof {
            assert(models_of(all) =~= self@);
        }
    }

    /// Plan B: scan the rows in natural order, return the first hit.
    pub fn find_scan(&self, target: u32) -> (r: Option<RangeRecord>)
        requires
            self.wf(),
        ensures
            find_post(self@, target, r),
    {
        let mut i: usize = 0;
        while i < self.records.len()
            invariant
                self.wf(),
                i <= self.records@.len(),
                first_hit(self@, target) == first_hit_from(self@, target, i as int),
            decreases self.records@.len() - i,
        {
            proof {
                assert(self@[i as int] == self.records@[i as int]@);
            }
            if self.records[i].range_start <= target && target <= self.records[i].range_end {
                return Some(self.records[i].clone());
            }
            i = i + 1;
        }
        None
    }

    /// Plan A: bound the candidates through the start-sorted index, then take
    /// the earliest candidate row that also covers the target.
    pub fn find_indexed(&self, target: u32) -> (r: Option<RangeRecord>)
        requires
            self.wf(),
        ensures
            find_post(self@, target, r),
    {
        let ghost s = self@;
        proof {
            assert forall|j: int| 0 <= j < self.records@.len() implies s[j] == self.records@[j]@
                by {}
        }
        // binary search: first index position whose start exceeds the target
        let mut lo: usize = 0;
        let mut hi: usize = self.index.len();
        while lo < hi
            invariant
                self.wf(),
                lo <= hi <= self.index@.len(),
                forall|k: int|
                    0 <= k < lo ==> self.records@[#[trigger] self.index@[k] as int]@.range_start
                        <= target,
                forall|k: int|
                    hi <= k < self.index@.len() ==> self.records@[#[trigger] self.index@[k]
                        as int]@.range_start > target,
            decreases hi - lo,
        {
            let mid = lo + (hi - lo) / 2;
            let row = self.index[mid];
            if self.records[row].range_start <= target {
                proof {
                    assert forall|k: int| 0 <= k < mid + 1 implies self.records@[#[trigger]
                        self.index@[k] as int]@.range_start <= target by {
                        assert(self.records@[self.index@[k] as int]@.range_start
                            <= self.records@[self.index@[mid as int] as int]@.range_start || k
                            == mid as int);
                    }
                }
                lo = mid + 1;
            } else {
                proof {
                    assert forall|k: int| mid <= k < self.index@.len() implies self.records@[
                    #[trigger] self.index@[k] as int]@.range_start > target by {
                        assert(k == mid as int || self.records@[self.index@[mid as int]
                            as int]@.range_start <= self.records@[self.index@[k]
                            as int]@.range_start);
                    }
                }
                hi = mid;
            }
        }
        let bound = lo;
        // earliest row among the candidates that also covers the target
        let mut best: Option<usize> = None;
        let mut k: usize = 0;
        while k < bound
            invariant
                self.wf(),
                k <= bound <= self.index@.len(),
                forall|j: int|
                    0 <= j < bound ==> self.records@[#[trigger] self.index@[j]
                        as int]@.range_start <= target,
                forall|j: int|
                    bound <= j < self.index@.len() ==> self.records@[#[trigger] self.index@[j]
                        as int]@.range_start > target,
                match best {
                    Some(m) => m < self@.len() && contains_addr(self@[m as int], target) && (
                    exists|j: int| 0 <= j < k && self.index@[j] == m) && (forall|j: int|
                        0 <= j < k ==> contains_addr(
                            self@[#[trigger] self.index@[j] as int],
                            target,
                        ) ==> m <= self.index@[j]),
                    None => forall|j: int|
                        0 <= j < k ==> !contains_addr(self@[#[trigger] self.index@[j] as int], target),
                },
            decreases bound - k,
        {
            let row = self.index[k];
            proof {
                assert(self@[row as int] == self.records@[row as int]@);
            }
            if self.records[row].range_end >= target {
                match best {
                    None => {
                        best = Some(row);
                    },
                    Some(m) => {
                        if row < m {
                            best = Some(row);
                        }
                    },
                }
            }
            k = k + 1;
        }
        match best {
            Some(m) => {
                proof {
                    assert forall|q: int| 0 <= q < m as int implies !contains_addr(s[q], target)
                        by {
                        if contains_addr(s[q], target) {
                            assert(self.in_index(q));
                            let k0 = choose|k0: int|
                                0 <= k0 < self.index@.len() && self.index@[k0] == q;
                            assert(s[q] == self.records@[q]@);
                            if k0 >= bound {
                                assert(self.records@[self.index@[k0] as int]@.range_start
                                    > target);
                            }
                            assert(k0 < bound);
                            assert(m <= self.index@[k0]);
                        }
                    }
                    lemma_first_hit_is(s, target, 0, m as int);
                }
                Some(self.get(m))
            },
            None => {
                proof {
                    lemma_first_hit(s, target, 0);
                    if first_hit(s, target) is Some {
                        let i = first_hit(s, target)->Some_0;
                        assert(contains_addr(s[i], target));
                        assert(self.in_index(i));
                        let k0 = choose|k0: int|
                            0 <= k0 < self.index@.len() && self.index@[k0] == i;
                        assert(s[i] == self.records@[i]@);
                        if k0 >= bound {
                            assert(self.records@[self.index@[k0] as int]@.range_start > target);
                        }
                        assert(k0 < bound);
                        assert(!contains_addr(s[self.index@[k0] as int], target));
                    }
                }
                None
            },
        }
    }

    /// The lookup: pick a plan by the pivot, run it. The plan choice never
    /// changes the answer; both plans meet the same contract.
    pub fn find(&self, target: u32) -> (r: Option<RangeRecord>)
        requires
            self.wf(),
        ensures
            find_post(self@, target, r),
    {
        match choose_plan(target) {
            QueryPlan::Indexed => self.find_indexed(target),
            QueryPlan::FullScan => self.find_scan(target),
        }
    }
}

/// Ranges that share any address agree on their boundary pair; holds in
/// particular of pairwise non-overlapping data, which may still repeat an
/// identical range under different row identifiers.
pub open spec fn boundary_consistent(s: Seq<RecordModel>) -> bool {
    forall|p: int, q: int, a: u32|
        #![trigger contains_addr(s[p], a), contains_addr(s[q], a)]
        0 <= p < s.len() && 0 <= q < s.len() && contains_addr(s[p], a) && contains_addr(s[q], a)
            ==> s[p].range_start == s[q].range_start && s[p].range_end == s[q].range_end
}

/// Lookup containment: when the loaded ranges are consistent and some record
/// covers the address, the lookup's answer carries that record's exact
/// boundary pair.
pub proof fn lemma_lookup_containment(s: Seq<RecordModel>, r: RecordModel, a: u32)
    requires
        boundary_consistent(s),
        s.contains(r),
        contains_addr(r, a),
    ensures
        first_hit(s, a) matches Some(i) && s[i].range_start == r.range_start && s[i].range_end
            == r.range_end,
{
    let j = choose|j: int| 0 <= j < s.len() && s[j] == r;
    lemma_first_hit(s, a, 0);
}

/// Plan equivalence: any two answers that meet the lookup contract for the
/// same store and address carry the same record values; which plan ran is
/// a performance choice, never an output-changing one.
pub proof fn lemma_plan_equivalence(
    s: Seq<RecordModel>,
    a: u32,
    r1: Option<RangeRecord>,
    r2: Option<RangeRecord>,
)
    requires
        find_post(s, a, r1),
        find_post(s, a, r2),
    ensures
        match (r1, r2) {
            (Some(x), Some(y)) => x@ == y@,
            (None, None) => true,
            _ => false,
        },
{
}

/// Lookup miss: an address contained in no loaded range yields no match.
pub proof fn lemma_lookup_miss(s: Seq<RecordModel>, a: u32)
    requires
        forall|k: int| 0 <= k < s.len() ==> !contains_addr(#[trigger] s[k], a),
    ensures
        first_hit(s, a) is None,
{
    lemma_first_hit(s, a, 0);
}

} // verus!
