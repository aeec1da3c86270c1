//! Abstract state of the buddy page allocator, and what holds of it.
//!
//! The state says for each page which run it lies in, and for each order
//! which free runs are on the free list, in list order. The functions here
//! describe the consistent states and the steps between them: handing out a
//! run by halving a larger one, and giving a run back by merging it with
//! its free buddies.

use vstd::prelude::*;
use vstd::arithmetic::power2::pow2;
use super::buddy_allocator::MAX_BUDDY_ORDER;
use super::pow2::{block_start, buddy_index};

verus! {

/// What is known of the run that a page lies in.
pub struct RunInfo {
    /// Index of the first page of the run.
    pub head: int,
    /// Order of the run.
    pub order: nat,
    /// Whether the run is handed out.
    pub allocated: bool,
}

/// Abstract state of a buddy allocator.
pub struct BuddyView {
    /// For each page of the arena, the run it lies in.
    pub runs: Seq<RunInfo>,
    /// For each order, the first pages of the free runs of that order, in list order.
    pub free: Seq<Seq<int>>,
    /// For each page, the slab it was given to.
    pub slab: Seq<Option<usize>>,
}

/// Page `h` is the first page of a run.
pub open spec fn is_head(runs: Seq<RunInfo>, h: int) -> bool {
    0 <= h < runs.len() && runs[h].head == h
}

/// Page `h` starts a free run that is not one of `detached`.
pub open spec fn is_listed(runs: Seq<RunInfo>, detached: Set<int>, h: int) -> bool {
    is_head(runs, h) && !runs[h].allocated && !detached.contains(h)
}

/// Every page lies in exactly one run, and runs are aligned blocks inside the arena.
pub open spec fn runs_ok(runs: Seq<RunInfo>) -> bool {
    &&& forall|j: int|
        0 <= j < runs.len() ==> {
            let r = #[trigger] runs[j];
            &&& 0 <= r.head <= j < r.head + pow2(r.order)
            &&& runs[r.head] == r
            &&& r.order < MAX_BUDDY_ORDER
            &&& r.head % (pow2(r.order) as int) == 0
            &&& r.head + pow2(r.order) <= runs.len()
        }
    &&& forall|h: int, j: int|
        #![trigger is_head(runs, h), runs[j]]
        is_head(runs, h) && h <= j < h + pow2(runs[h].order) ==> runs[j].head == h
}

/// The free lists hold exactly the free runs that are not in `detached`,
/// each on the list of its order and once.
pub open spec fn lists_ok(runs: Seq<RunInfo>, free: Seq<Seq<int>>, detached: Set<int>) -> bool {
    &&& free.len() == MAX_BUDDY_ORDER
    &&& forall|o: int, k: int|
        0 <= o < MAX_BUDDY_ORDER && 0 <= k < free[o].len() ==> {
            let h = #[trigger] free[o][k];
            is_listed(runs, detached, h) && runs[h].order == o
        }
    &&& forall|o: int| 0 <= o < MAX_BUDDY_ORDER ==> (#[trigger] free[o]).no_duplicates()
    &&& forall|h: int| #[trigger]
        is_listed(runs, detached, h) ==> free[runs[h].order as int].contains(h)
    &&& forall|d: int| #[trigger]
        detached.contains(d) ==> is_head(runs, d) && !runs[d].allocated
}

/// No listed free run below the top order has a listed free buddy of its own order.
pub open spec fn coalesced(runs: Seq<RunInfo>, detached: Set<int>) -> bool {
    forall|h: int| #[trigger]
        is_listed(runs, detached, h) && runs[h].order + 1 < MAX_BUDDY_ORDER ==> {
            let b = buddy_index(h, runs[h].order);
            !(is_listed(runs, detached, b) && runs[b].order == runs[h].order)
        }
}

impl BuddyView {
    /// Number of pages in the arena.
    pub open spec fn page_count(self) -> nat {
        self.runs.len()
    }

    /// Page `h` is the first page of a run.
    pub open spec fn is_head(self, h: int) -> bool {
        is_head(self.runs, h)
    }

    /// Page `h` starts a run that is handed out.
    pub open spec fn is_live(self, h: int) -> bool {
        is_head(self.runs, h) && self.runs[h].allocated
    }

    /// Page `h` starts a free run of order `o`.
    pub open spec fn is_free_run(self, h: int, o: nat) -> bool {
        is_head(self.runs, h) && !self.runs[h].allocated && self.runs[h].order == o
    }

    /// The state is consistent, but for the free runs in `detached`, which are on no list.
    pub open spec fn wf_detached(self, detached: Set<int>) -> bool {
        &&& self.slab.len() == self.runs.len()
        &&& runs_ok(self.runs)
        &&& lists_ok(self.runs, self.free, detached)
        &&& coalesced(self.runs, detached)
    }

    /// The state is consistent.
    pub open spec fn wf(self) -> bool {
        self.wf_detached(Set::empty())
    }

    /// The runs after pages `[h, h + 2^o)` have become one run.
    pub open spec fn with_run(self, h: int, o: nat, allocated: bool) -> BuddyView {
        BuddyView {
            runs: Seq::new(
                self.runs.len(),
                |j: int|
                    if h <= j < h + pow2(o) {
                        RunInfo { head: h, order: o, allocated }
                    } else {
                        self.runs[j]
                    },
            ),
            ..self
        }
    }

    /// The state after `h` was put at the front of the free list of order `o`.
    pub open spec fn with_pushed(self, o: int, h: int) -> BuddyView {
        BuddyView { free: self.free.update(o, seq![h] + self.free[o]), ..self }
    }

    /// Number of pages that lie in free runs.
    pub open spec fn free_pages(self) -> nat {
        count_free(self.runs, self.runs.len())
    }

    /// The free run of order `o` at `h` has a free buddy of its own order to merge with.
    pub open spec fn can_merge(self, h: int, o: nat) -> bool {
        o + 1 < MAX_BUDDY_ORDER && self.is_free_run(buddy_index(h, o), o)
    }

    /// First page of the run that the free run of order `o` at `h` ends up in
    /// when it merges with free buddies as long as it can.
    pub open spec fn merged_head(self, h: int, o: nat) -> int
        decreases MAX_BUDDY_ORDER - o,
    {
        if self.can_merge(h, o) {
            let b = buddy_index(h, o);
            let lo = if b < h { b } else { h };
            self.with_removed(o as int, b).with_run(lo, o + 1, false).merged_head(lo, o + 1)
        } else {
            h
        }
    }

    /// Order of the run that the free run of order `o` at `h` ends up in.
    pub open spec fn merged_order(self, h: int, o: nat) -> nat
        decreases MAX_BUDDY_ORDER - o,
    {
        if self.can_merge(h, o) {
            let b = buddy_index(h, o);
            let lo = if b < h { b } else { h };
            self.with_removed(o as int, b).with_run(lo, o + 1, false).merged_order(lo, o + 1)
        } else {
            o
        }
    }

    /// The state after the free run of order `o` at `h` has merged with free
    /// buddies as long as it could: each buddy left its list and the two
    /// became one run of the next order.
    pub open spec fn merged(self, h: int, o: nat) -> BuddyView
        decreases MAX_BUDDY_ORDER - o,
    {
        if self.can_merge(h, o) {
            let b = buddy_index(h, o);
            let lo = if b < h { b } else { h };
            self.with_removed(o as int, b).with_run(lo, o + 1, false).merged(lo, o + 1)
        } else {
            self
        }
    }

    /// The state after the free run of order `m` at `p` was halved down to
    /// order `k`: each upper half became a free run at the front of its list.
    pub open spec fn split(self, p: int, m: nat, k: nat) -> BuddyView
        decreases m,
    {
        if m > k {
            let o = (m - 1) as nat;
            let b = p + pow2(o);
            self.with_run(p, o, false).with_run(b, o, false).with_pushed(o as int, b).split(p, o, k)
        } else {
            self
        }
    }

    /// The state after the run handed out at `p` was given back: it became
    /// free, merged with free buddies as long as it could, and the resulting
    /// run went to the front of the free list of its order.
    pub open spec fn released(self, p: int) -> BuddyView {
        let o = self.runs[p].order;
        let v = self.with_run(p, o, false);
        v.merged(p, o).with_pushed(self.released_order(p) as int, self.released_head(p))
    }

    /// First page of the run that the run handed out at `p` ends up in when
    /// it is given back.
    pub open spec fn released_head(self, p: int) -> int {
        let o = self.runs[p].order;
        self.with_run(p, o, false).merged_head(p, o)
    }

    /// Order of the run that the run handed out at `p` ends up in when it is
    /// given back.
    pub open spec fn released_order(self, p: int) -> nat {
        let o = self.runs[p].order;
        self.with_run(p, o, false).merged_order(p, o)
    }

    /// The state after a run of order `k` was carved out of the first free
    /// run of order `m` on its list and handed out.
    pub open spec fn carved(self, m: nat, k: nat) -> BuddyView {
        let p = self.free[m as int][0];
        self.with_removed(m as int, p).split(p, m, k).with_run(p, k, true)
    }

    /// The least order from `k` on whose free list is not empty.
    pub open spec fn first_fit(self, k: nat) -> Option<nat>
        decreases MAX_BUDDY_ORDER - k,
    {
        if k >= MAX_BUDDY_ORDER {
            None
        } else if self.free[k as int].len() > 0 {
            Some(k)
        } else {
            self.first_fit(k + 1)
        }
    }

    /// The state after `h` was taken off the free list of order `o`.
    pub open spec fn with_removed(self, o: int, h: int) -> BuddyView {
        BuddyView { free: self.free.update(o, self.free[o].remove(self.free[o].index_of(h))), ..self }
    }
}

/// Every page is free.
pub open spec fn all_free(v: BuddyView) -> bool {
    forall|j: int| 0 <= j < v.runs.len() ==> !(#[trigger] v.runs[j]).allocated
}

/// The run of page `j` is as large as the arena allows: it is the aligned
/// block of its order around `j`, and the block of the next order around
/// `j` would reach beyond the arena, unless the order is the top one.
pub open spec fn maximal_run(v: BuddyView, j: int) -> bool {
    let r = v.runs[j];
    &&& r.head == block_start(j, r.order)
    &&& r.order + 1 == MAX_BUDDY_ORDER || block_start(j, r.order + 1) + pow2(r.order + 1)
        > v.runs.len()
}

/// Page by page the two states agree on what is handed out, and the runs
/// that are handed out are the same in both.
pub open spec fn same_occupancy(a: Seq<RunInfo>, b: Seq<RunInfo>) -> bool {
    &&& a.len() == b.len()
    &&& forall|j: int|
        #![trigger a[j]]
        #![trigger b[j]]
        0 <= j < a.len() ==> a[j].allocated == b[j].allocated && (b[j].allocated ==> a[j] == b[j])
}

/// From `pre` to `post` the run at `p` was handed out: its pages are now
/// taken, every other page is as free or taken as before, and the runs
/// that were handed out before are untouched.
pub open spec fn handed_out(pre: Seq<RunInfo>, post: Seq<RunInfo>, p: int) -> bool {
    &&& post.len() == pre.len()
    &&& forall|j: int|
        0 <= j < pre.len() ==> {
            let r1 = #[trigger] post[j];
            let r0 = pre[j];
            &&& r1.allocated == (r0.allocated || r1.head == p)
            &&& r0.allocated ==> r1 == r0
        }
}

/// From `pre` to `post` the run at `p` was taken back: its pages are now
/// free, every other page is as free or taken as before, and the runs that
/// are still handed out are untouched.
pub open spec fn taken_back(pre: Seq<RunInfo>, post: Seq<RunInfo>, p: int) -> bool {
    &&& post.len() == pre.len()
    &&& forall|j: int|
        0 <= j < pre.len() ==> {
            let r1 = #[trigger] post[j];
            let r0 = pre[j];
            &&& r1.allocated == (r0.allocated && r0.head != p)
            &&& r1.allocated ==> r1 == r0
        }
}

/// The entries of the list fall from its front to its end.
pub open spec fn descending(l: Seq<int>) -> bool {
    forall|a: int, b: int| 0 <= a < b < l.len() ==> l[a] > l[b]
}

/// Each list of `post` holds only entries of the same list of `pre`, and
/// falls from its front to its end where that of `pre` does.
pub open spec fn thinned(pre: Seq<Seq<int>>, post: Seq<Seq<int>>) -> bool {
    &&& post.len() == pre.len()
    &&& forall|i: int| 0 <= i < pre.len() && descending(pre[i]) ==> descending(#[trigger] post[i])
    &&& forall|i: int, k: int|
        0 <= i < pre.len() && 0 <= k < post[i].len() ==> pre[i].contains(#[trigger] post[i][k])
}

/// Number of pages among the first `n` that lie in free runs.
pub open spec fn count_free(runs: Seq<RunInfo>, n: nat) -> nat
    decreases n,
{
    if n == 0 {
        0
    } else {
        count_free(runs, (n - 1) as nat) + if runs[n - 1].allocated {
            0nat
        } else {
            1nat
        }
    }
}

/// Number of pages among the first `n` that lie in `[lo, hi)`.
pub open spec fn count_within(n: int, lo: int, hi: int) -> int {
    if n <= lo {
        0
    } else if n >= hi {
        hi - lo
    } else {
        n - lo
    }
}

/// Every run that meets the pages `[h, h + size)` lies inside them.
pub open spec fn block_closed(runs: Seq<RunInfo>, h: int, size: int) -> bool {
    &&& 0 <= h
    &&& h + size <= runs.len()
    &&& forall|j: int|
        h <= j < h + size ==> h <= (#[trigger] runs[j]).head && runs[j].head + pow2(runs[j].order)
            <= h + size
}

/// `runs1` is a run structure on the pages `[h, h + size)`, and equals `runs` elsewhere.
pub open spec fn block_replaced(runs: Seq<RunInfo>, runs1: Seq<RunInfo>, h: int, size: int) -> bool {
    &&& runs1.len() == runs.len()
    &&& forall|j: int| 0 <= j < runs.len() && !(h <= j < h + size) ==> #[trigger] runs1[j] == runs[j]
    &&& forall|j: int|
        h <= j < h + size ==> {
            let r = #[trigger] runs1[j];
            &&& h <= r.head <= j < r.head + pow2(r.order) <= h + size
            &&& runs1[r.head] == r
            &&& r.order < MAX_BUDDY_ORDER
            &&& r.head % (pow2(r.order) as int) == 0
        }
    &&& forall|x: int, j: int|
        #![trigger is_head(runs1, x), runs1[j]]
        h <= x < h + size && is_head(runs1, x) && x <= j < x + pow2(runs1[x].order)
            ==> runs1[j].head == x
}

/// The pages of a run form a closed block that holds no other run head.
pub proof fn lemma_run_block(runs: Seq<RunInfo>, p: int)
    requires
        runs_ok(runs),
        is_head(runs, p),
    ensures
        block_closed(runs, p, pow2(runs[p].order) as int),
        forall|j: int|
            p <= j < p + pow2(runs[p].order) ==> (#[trigger] runs[j]) == runs[p],
        forall|j: int|
            0 <= j < runs.len() && (#[trigger] runs[j]).head == p ==> p <= j < p + pow2(
                runs[p].order,
            ),
{
    let size = pow2(runs[p].order) as int;
    assert(runs[p].head == p);
    assert forall|j: int| p <= j < p + size implies (#[trigger] runs[j]) == runs[p] by {
        assert(runs[j].head == p);
        assert(runs[runs[j].head] == runs[j]);
    }
    assert forall|j: int| 0 <= j < runs.len() && (#[trigger] runs[j]).head == p implies p <= j
        < p + size by {
        assert(runs[runs[j].head] == runs[j]);
    }
}

/// The buddy of a run, where it lies in the arena, starts a run of at most the same order.
pub proof fn lemma_buddy_is_head(runs: Seq<RunInfo>, p: int)
    requires
        runs_ok(runs),
        is_head(runs, p),
        0 <= buddy_index(p, runs[p].order) < runs.len(),
    ensures
        is_head(runs, buddy_index(p, runs[p].order)),
        runs[buddy_index(p, runs[p].order)].order <= runs[p].order,
{
    let o = runs[p].order;
    let b = buddy_index(p, o);
    let r = runs[b];
    let hp = r.head;
    let op = r.order;
    let d = pow2(o) as int;
    let dp = pow2(op) as int;
    assert(runs[p].head == p);
    super::pow2::lemma_buddy(p, o);
    super::pow2::lemma_pow2_double(o);
    super::pow2::lemma_pow2_double(op);
    assert(runs[hp] == r);
    assert(is_head(runs, hp));
    if op <= o {
        super::pow2::lemma_aligned_weaken(b, o, op);
        if hp < b {
            super::pow2::lemma_multiples_apart(hp, b, dp);
        }
    } else {
        let lo = if b < p { b } else { p };
        let dd = pow2(o + 1) as int;
        assert(lo % dd == 0);
        super::pow2::lemma_aligned_weaken(hp, op, o + 1);
        vstd::arithmetic::div_mod::lemma_mod_self_0(dp);
        super::pow2::lemma_aligned_weaken(dp, op, o + 1);
        vstd::arithmetic::div_mod::lemma_mod_adds(hp, dp, dd);
        assert((hp + dp) % dd == 0);
        if lo < hp {
            super::pow2::lemma_multiples_apart(lo, hp, dd);
        }
        if lo < hp + dp {
            super::pow2::lemma_multiples_apart(lo, hp + dp, dd);
        }
        assert(hp <= p < hp + dp);
        assert(runs[p].head == hp);
    }
}

/// Rearranging the runs inside a closed block keeps the run structure.
pub proof fn lemma_replace_block_runs(runs: Seq<RunInfo>, runs1: Seq<RunInfo>, h: int, size: int)
    requires
        runs_ok(runs),
        block_closed(runs, h, size),
        block_replaced(runs, runs1, h, size),
    ensures
        runs_ok(runs1),
        forall|x: int|
            0 <= x < runs.len() && !(h <= x < h + size) ==> (is_head(runs1, x) <==> is_head(
                runs,
                x,
            )),
{
    assert forall|j: int| 0 <= j < runs1.len() implies {
        let r = #[trigger] runs1[j];
        &&& 0 <= r.head <= j < r.head + pow2(r.order)
        &&& runs1[r.head] == r
        &&& r.order < MAX_BUDDY_ORDER
        &&& r.head % (pow2(r.order) as int) == 0
        &&& r.head + pow2(r.order) <= runs1.len()
    } by {
        if !(h <= j < h + size) {
            let r = runs[j];
            assert(runs1[j] == r);
            assert(runs[r.head] == r);
            if h <= r.head < h + size {
                // the old run of j starts inside the block, so it ends inside it
                assert(runs[r.head].head + pow2(runs[r.head].order) <= h + size);
                assert(false);
            }
            assert(runs1[r.head] == runs[r.head]);
        }
    }
    assert forall|x: int, j: int|
        #![trigger is_head(runs1, x), runs1[j]]
        is_head(runs1, x) && x <= j < x + pow2(runs1[x].order) implies runs1[j].head == x by {
        if h <= x < h + size {
        } else {
            assert(runs1[x] == runs[x]);
            assert(is_head(runs, x));
            assert(runs[j].head == x);
            if h <= j < h + size {
                assert(h <= runs[j].head);
                assert(false);
            }
            assert(runs1[j] == runs[j]);
        }
    }
}

/// Rearranging the runs inside a block that holds no listed run, before or
/// after, keeps the free lists exact and coalesced.
pub proof fn lemma_replace_block_lists(
    runs: Seq<RunInfo>,
    runs1: Seq<RunInfo>,
    free: Seq<Seq<int>>,
    detached: Set<int>,
    detached1: Set<int>,
    h: int,
    size: int,
)
    requires
        runs_ok(runs),
        lists_ok(runs, free, detached),
        coalesced(runs, detached),
        block_closed(runs, h, size),
        block_replaced(runs, runs1, h, size),
        forall|x: int| h <= x < h + size ==> !#[trigger] is_listed(runs, detached, x),
        forall|x: int| h <= x < h + size ==> !#[trigger] is_listed(runs1, detached1, x),
        forall|x: int| !(h <= x < h + size) ==> (detached1.contains(x) <==> detached.contains(x)),
        forall|x: int|
            h <= x < h + size && #[trigger] detached1.contains(x) ==> is_head(runs1, x)
                && !runs1[x].allocated,
    ensures
        lists_ok(runs1, free, detached1),
        coalesced(runs1, detached1),
{
    lemma_replace_block_runs(runs, runs1, h, size);
    assert forall|x: int| is_listed(runs1, detached1, x) <==> is_listed(runs, detached, x) by {
        if 0 <= x < runs.len() && !(h <= x < h + size) {
            assert(runs1[x] == runs[x]);
        }
    }
    assert forall|o: int, k: int| 0 <= o < MAX_BUDDY_ORDER && 0 <= k < free[o].len() implies {
        let x = #[trigger] free[o][k];
        is_listed(runs1, detached1, x) && runs1[x].order == o
    } by {
        let x = free[o][k];
        assert(is_listed(runs, detached, x));
        assert(runs1[x] == runs[x]);
    }
    assert forall|x: int| #[trigger] is_listed(runs1, detached1, x) implies free[runs1[x].order as int].contains(
        x,
    ) by {
        assert(is_listed(runs, detached, x));
        assert(runs1[x] == runs[x]);
    }
    assert forall|d: int| #[trigger] detached1.contains(d) implies is_head(runs1, d)
        && !runs1[d].allocated by {
        if !(h <= d < h + size) {
            assert(detached.contains(d));
            assert(runs1[d] == runs[d]);
        }
    }
    assert forall|x: int| #[trigger]
        is_listed(runs1, detached1, x) && runs1[x].order + 1 < MAX_BUDDY_ORDER implies {
        let y = buddy_index(x, runs1[x].order);
        !(is_listed(runs1, detached1, y) && runs1[y].order == runs1[x].order)
    } by {
        let y = buddy_index(x, runs1[x].order);
        assert(is_listed(runs, detached, x));
        assert(runs1[x] == runs[x]);
        if is_listed(runs1, detached1, y) {
            assert(is_listed(runs, detached, y));
            assert(runs1[y] == runs[y]);
        }
    }
}

/// Putting a detached free run on the list of its order keeps the lists exact.
pub proof fn lemma_push_lists_ok(runs: Seq<RunInfo>, free: Seq<Seq<int>>, detached: Set<int>, h: int)
    requires
        runs_ok(runs),
        lists_ok(runs, free, detached),
        detached.contains(h),
    ensures
        lists_ok(
            runs,
            free.update(runs[h].order as int, seq![h] + free[runs[h].order as int]),
            detached.remove(h),
        ),
{
    let order = runs[h].order as int;
    let det1 = detached.remove(h);
    let l = free[order];
    let l1 = seq![h] + l;
    let free1 = free.update(order, l1);
    assert(is_head(runs, h));
    assert(runs[h].order < MAX_BUDDY_ORDER);
    assert forall|x: int| is_listed(runs, det1, x) <==> (is_listed(runs, detached, x) || x == h) by {}
    assert(!l.contains(h)) by {
        if l.contains(h) {
            let k = l.index_of(h);
            assert(is_listed(runs, detached, free[order][k]));
        }
    }
    assert(l1.no_duplicates());
    assert forall|o: int, k: int| 0 <= o < MAX_BUDDY_ORDER && 0 <= k < free1[o].len() implies {
        let x = #[trigger] free1[o][k];
        is_listed(runs, det1, x) && runs[x].order == o
    } by {
        if o == order {
            if k > 0 {
                assert(l1[k] == l[k - 1]);
                assert(is_listed(runs, detached, free[o][k - 1]));
            }
        } else {
            assert(is_listed(runs, detached, free[o][k]));
        }
    }
    assert forall|x: int| #[trigger] is_listed(runs, det1, x) implies free1[runs[x].order as int].contains(
        x,
    ) by {
        if x == h {
            assert(l1[0] == h);
        } else {
            assert(is_listed(runs, detached, x));
            assert(runs[x].order < MAX_BUDDY_ORDER);
            let lx = free[runs[x].order as int];
            assert(lx.contains(x));
            let k = lx.index_of(x);
            if runs[x].order == order {
                assert(l1[k + 1] == x);
            } else {
                assert(free1[runs[x].order as int][k] == x);
            }
        }
    }
    assert forall|o: int| 0 <= o < MAX_BUDDY_ORDER implies (#[trigger] free1[o]).no_duplicates() by {
        if o != order {
            assert(free1[o] == free[o]);
        }
    }
    assert forall|d: int| #[trigger] det1.contains(d) implies is_head(runs, d) && !runs[d].allocated by {
        assert(detached.contains(d));
    }
}

/// Putting a detached free run on its list keeps the lists coalesced, if the
/// run's buddy is not a listed free run of the same order.
pub proof fn lemma_push_coalesced(runs: Seq<RunInfo>, detached: Set<int>, h: int)
    requires
        runs_ok(runs),
        coalesced(runs, detached),
        detached.contains(h),
        is_head(runs, h),
        runs[h].order + 1 < MAX_BUDDY_ORDER ==> {
            let b = buddy_index(h, runs[h].order);
            !(is_listed(runs, detached, b) && runs[b].order == runs[h].order)
        },
    ensures
        coalesced(runs, detached.remove(h)),
{
    let det1 = detached.remove(h);
    assert forall|x: int| is_listed(runs, det1, x) <==> (is_listed(runs, detached, x) || (x == h
        && !runs[h].allocated)) by {}
    assert forall|x: int| #[trigger]
        is_listed(runs, det1, x) && runs[x].order + 1 < MAX_BUDDY_ORDER implies {
        let b = buddy_index(x, runs[x].order);
        !(is_listed(runs, det1, b) && runs[b].order == runs[x].order)
    } by {
        let b = buddy_index(x, runs[x].order);
        if is_listed(runs, det1, b) && runs[b].order == runs[x].order {
            if x == h {
                super::pow2::lemma_buddy(h, runs[h].order);
                assert(b != h);
                assert(is_listed(runs, detached, b));
            } else {
                assert(is_listed(runs, detached, x));
                if b == h {
                    assert(runs[x].head == x);
                    super::pow2::lemma_buddy(x, runs[x].order);
                    assert(buddy_index(h, runs[h].order) == x);
                } else {
                    assert(is_listed(runs, detached, b));
                }
            }
        }
    }
}

/// Taking a listed free run off its list keeps the lists exact, with the run detached.
pub proof fn lemma_unlink_lists_ok(runs: Seq<RunInfo>, free: Seq<Seq<int>>, detached: Set<int>, b: int)
    requires
        runs_ok(runs),
        lists_ok(runs, free, detached),
        is_listed(runs, detached, b),
    ensures
        lists_ok(
            runs,
            free.update(
                runs[b].order as int,
                free[runs[b].order as int].remove(free[runs[b].order as int].index_of(b)),
            ),
            detached.insert(b),
        ),
{
    let order = runs[b].order as int;
    let det1 = detached.insert(b);
    let l = free[order];
    let k = l.index_of(b);
    let l1 = l.remove(k);
    let free1 = free.update(order, l1);
    assert(0 <= order < MAX_BUDDY_ORDER);
    assert(l.contains(b));
    assert forall|x: int| is_listed(runs, det1, x) <==> (is_listed(runs, detached, x) && x != b) by {}
    assert forall|o: int, j: int| 0 <= o < MAX_BUDDY_ORDER && 0 <= j < free1[o].len() implies {
        let x = #[trigger] free1[o][j];
        is_listed(runs, det1, x) && runs[x].order == o
    } by {
        if o == order {
            let j0 = if j < k { j } else { j + 1 };
            assert(l1[j] == l[j0]);
            assert(is_listed(runs, detached, free[o][j0]));
        } else {
            assert(is_listed(runs, detached, free[o][j]));
        }
    }
    assert(l1.no_duplicates()) by {
        assert forall|i: int, j: int| 0 <= i < l1.len() && 0 <= j < l1.len() && i != j implies l1[i]
            != l1[j] by {
            assert(l1[i] == l[if i < k { i } else { i + 1 }]);
            assert(l1[j] == l[if j < k { j } else { j + 1 }]);
        }
    }
    assert forall|o: int| 0 <= o < MAX_BUDDY_ORDER implies (#[trigger] free1[o]).no_duplicates() by {
        if o != order {
            assert(free1[o] == free[o]);
        }
    }
    assert forall|x: int| #[trigger] is_listed(runs, det1, x) implies free1[runs[x].order as int].contains(
        x,
    ) by {
        assert(is_listed(runs, detached, x));
        assert(runs[x].order < MAX_BUDDY_ORDER);
        let lx = free[runs[x].order as int];
        assert(lx.contains(x));
        let j = lx.index_of(x);
        if runs[x].order == order {
            assert(j != k);
            assert(l1[if j < k { j } else { j - 1 }] == x);
        } else {
            assert(free1[runs[x].order as int][j] == x);
        }
    }
    assert forall|d: int| #[trigger] det1.contains(d) implies is_head(runs, d) && !runs[d].allocated by {
        if d != b {
            assert(detached.contains(d));
        }
    }
}

/// Detaching a run keeps the lists coalesced.
pub proof fn lemma_unlink_coalesced(runs: Seq<RunInfo>, detached: Set<int>, b: int)
    requires
        coalesced(runs, detached),
    ensures
        coalesced(runs, detached.insert(b)),
{
    let det1 = detached.insert(b);
    assert forall|x: int| #[trigger]
        is_listed(runs, det1, x) && runs[x].order + 1 < MAX_BUDDY_ORDER implies {
        let y = buddy_index(x, runs[x].order);
        !(is_listed(runs, det1, y) && runs[y].order == runs[x].order)
    } by {
        assert(is_listed(runs, detached, x));
    }
}

/// Taking an entry out of a list thins the lists.
pub proof fn lemma_removed_thinned(free: Seq<Seq<int>>, o: int, k: int)
    requires
        0 <= o < free.len(),
        0 <= k < free[o].len(),
    ensures
        thinned(free, free.update(o, free[o].remove(k))),
{
    let l = free[o];
    let l1 = l.remove(k);
    let post = free.update(o, l1);
    assert forall|i: int| 0 <= i < free.len() && descending(free[i]) implies descending(
        #[trigger] post[i],
    ) by {
        if i == o {
            assert forall|a: int, b: int| 0 <= a < b < l1.len() implies l1[a] > l1[b] by {
                assert(l1[a] == l[if a < k { a } else { a + 1 }]);
                assert(l1[b] == l[if b < k { b } else { b + 1 }]);
            }
        }
    }
    assert forall|i: int, j: int| 0 <= i < free.len() && 0 <= j < post[i].len() implies free[i].contains(
        #[trigger] post[i][j],
    ) by {
        if i == o {
            assert(l1[j] == l[if j < k { j } else { j + 1 }]);
        } else {
            assert(free[i][j] == post[i][j]);
        }
    }
}

/// Thinning twice is thinning.
pub proof fn lemma_thinned_twice(a: Seq<Seq<int>>, b: Seq<Seq<int>>, c: Seq<Seq<int>>)
    requires
        thinned(a, b),
        thinned(b, c),
    ensures
        thinned(a, c),
{
    assert forall|i: int, k: int| 0 <= i < a.len() && 0 <= k < c[i].len() implies a[i].contains(
        #[trigger] c[i][k],
    ) by {
        assert(b[i].contains(c[i][k]));
        let j = b[i].index_of(c[i][k]);
        assert(a[i].contains(b[i][j]));
    }
}

/// Where the pages `[lo, hi)` are free in `a` and taken in `b`, and all
/// other pages are alike, `a` has that many more free pages.
pub proof fn lemma_count_flip(a: Seq<RunInfo>, b: Seq<RunInfo>, lo: int, hi: int, n: nat)
    requires
        a.len() == b.len(),
        0 <= lo <= hi <= a.len(),
        n <= a.len(),
        forall|j: int| lo <= j < hi ==> !(#[trigger] a[j]).allocated && b[j].allocated,
        forall|j: int|
            0 <= j < a.len() && !(lo <= j < hi) ==> (#[trigger] a[j]).allocated == b[j].allocated,
    ensures
        count_free(a, n) == count_free(b, n) + count_within(n as int, lo, hi),
    decreases n,
{
    if n > 0 {
        lemma_count_flip(a, b, lo, hi, (n - 1) as nat);
        let j: int = n - 1;
        let ra = a[j];
        let rb = b[j];
        if lo <= j < hi {
            assert(!ra.allocated && rb.allocated);
        } else {
            assert(ra.allocated == rb.allocated);
        }
    }
}

/// Two free pages among the first `n` make the count of free pages at least two.
pub proof fn lemma_count_two(runs: Seq<RunInfo>, n: nat, i: int, j: int)
    requires
        n <= runs.len(),
        0 <= i < j < n,
        !runs[i].allocated,
        !runs[j].allocated,
    ensures
        count_free(runs, n) >= 2,
    decreases n,
{
    if j == n - 1 {
        lemma_count_one(runs, (n - 1) as nat, i);
    } else {
        lemma_count_two(runs, (n - 1) as nat, i, j);
    }
}

/// A free page among the first `n` makes the count of free pages at least one.
pub proof fn lemma_count_one(runs: Seq<RunInfo>, n: nat, i: int)
    requires
        n <= runs.len(),
        0 <= i < n,
        !runs[i].allocated,
    ensures
        count_free(runs, n) >= 1,
    decreases n,
{
    if i < n - 1 {
        lemma_count_one(runs, (n - 1) as nat, i);
    }
}

/// Where at least `c` of the first `n` pages are free, `c` being 1 or 2,
/// there are as many free pages among them: the last, and one before it.
pub proof fn lemma_count_witness(runs: Seq<RunInfo>, n: nat, c: int) -> (w: (int, int))
    requires
        n <= runs.len(),
        1 <= c <= 2,
        count_free(runs, n) >= c,
    ensures
        0 <= w.1 < n,
        !runs[w.1].allocated,
        c == 2 ==> 0 <= w.0 < w.1 && !runs[w.0].allocated,
    decreases n,
{
    if n == 0 {
        (0, 0)
    } else if !runs[n - 1].allocated {
        if c == 2 {
            let w = lemma_count_witness(runs, (n - 1) as nat, 1);
            (w.1, n - 1)
        } else {
            (0, n - 1)
        }
    } else {
        lemma_count_witness(runs, (n - 1) as nat, c)
    }
}

/// At most `n` of the first `n` pages are free; all of them, where none is taken.
pub proof fn lemma_count_bound(runs: Seq<RunInfo>, n: nat)
    requires
        n <= runs.len(),
    ensures
        count_free(runs, n) <= n,
        (forall|j: int| 0 <= j < n ==> !(#[trigger] runs[j]).allocated) ==> count_free(runs, n)
            == n,
    decreases n,
{
    if n > 0 {
        lemma_count_bound(runs, (n - 1) as nat);
        if forall|j: int| 0 <= j < n ==> !(#[trigger] runs[j]).allocated {
            assert(!runs[n - 1].allocated);
        }
    }
}

/// Merging leaves the slab tags and the number of pages as they are.
pub proof fn lemma_merged_slab(v: BuddyView, h: int, o: nat)
    ensures
        v.merged(h, o).slab == v.slab,
        v.merged(h, o).runs.len() == v.runs.len(),
    decreases MAX_BUDDY_ORDER - o,
{
    if v.can_merge(h, o) {
        let b = buddy_index(h, o);
        let lo = if b < h { b } else { h };
        lemma_merged_slab(v.with_removed(o as int, b).with_run(lo, o + 1, false), lo, o + 1);
    }
}

/// Giving a run back leaves the slab tags and the number of pages as they are.
pub proof fn lemma_released_slab(v: BuddyView, p: int)
    ensures
        v.released(p).slab == v.slab,
        v.released(p).runs.len() == v.runs.len(),
{
    let o = v.runs[p].order;
    lemma_merged_slab(v.with_run(p, o, false), p, o);
}

/// Halving leaves the slab tags and the number of pages as they are.
pub proof fn lemma_split_slab(v: BuddyView, p: int, m: nat, k: nat)
    ensures
        v.split(p, m, k).slab == v.slab,
        v.split(p, m, k).runs.len() == v.runs.len(),
    decreases m,
{
    if m > k {
        let o = (m - 1) as nat;
        let b = p + pow2(o);
        lemma_split_slab(
            v.with_run(p, o, false).with_run(b, o, false).with_pushed(o as int, b),
            p,
            o,
            k,
        );
    }
}

/// A list of distinct numbers from 0 up to `n`, `n` left out, has at most `n` entries.
pub proof fn lemma_bounded_distinct(l: Seq<int>, n: int)
    requires
        l.no_duplicates(),
        forall|k: int| 0 <= k < l.len() ==> 0 <= #[trigger] l[k] < n,
    ensures
        l.len() <= n || l.len() == 0,
    decreases l.len() + (if n >= 0 { n } else { 0 }),
{
    if l.len() > 0 {
        assert(0 <= l[0] < n);
        if l.contains(n - 1) {
            let i = l.index_of(n - 1);
            let rest = l.remove(i);
            assert forall|k: int| 0 <= k < rest.len() implies 0 <= #[trigger] rest[k] < n - 1 by {
                let k0 = if k < i { k } else { k + 1 };
                assert(rest[k] == l[k0]);
            }
            assert forall|a: int, b: int|
                0 <= a < rest.len() && 0 <= b < rest.len() && a != b implies rest[a] != rest[b] by {
                assert(rest[a] == l[if a < i { a } else { a + 1 }]);
                assert(rest[b] == l[if b < i { b } else { b + 1 }]);
            }
            lemma_bounded_distinct(rest, n - 1);
        } else {
            assert forall|k: int| 0 <= k < l.len() implies 0 <= #[trigger] l[k] < n - 1 by {
                if l[k] == n - 1 {
                    assert(l.contains(n - 1));
                }
            }
            lemma_bounded_distinct(l, n - 1);
        }
    }
}

/// The order found by `first_fit` is one from `k` on, and its free list is
/// not empty.
pub proof fn lemma_first_fit(v: BuddyView, k: nat)
    requires
        v.first_fit(k) is Some,
    ensures
        k <= v.first_fit(k).unwrap() < MAX_BUDDY_ORDER,
        v.free[v.first_fit(k).unwrap() as int].len() > 0,
    decreases MAX_BUDDY_ORDER - k,
{
    if k < MAX_BUDDY_ORDER && v.free[k as int].len() == 0 {
        lemma_first_fit(v, k + 1);
    }
}

/// Where `first_fit` finds nothing, the free lists from `k` on are empty.
pub proof fn lemma_first_fit_none(v: BuddyView, k: nat, o: int)
    requires
        v.first_fit(k) is None,
        k <= o < MAX_BUDDY_ORDER,
    ensures
        v.free[o].len() == 0,
    decreases MAX_BUDDY_ORDER - k,
{
    if k < o {
        lemma_first_fit_none(v, k + 1, o);
    }
}

/// Two runs share no page.
pub proof fn law_runs_disjoint(v: BuddyView, h1: int, h2: int)
    requires
        v.wf(),
        v.is_head(h1),
        v.is_head(h2),
        h1 != h2,
    ensures
        h1 + pow2(v.runs[h1].order) <= h2 || h2 + pow2(v.runs[h2].order) <= h1,
{
    lemma_run_block(v.runs, h1);
    lemma_run_block(v.runs, h2);
    if h1 < h2 {
        if h2 < h1 + pow2(v.runs[h1].order) {
            assert(v.runs[h2] == v.runs[h1]);
        }
    } else {
        if h1 < h2 + pow2(v.runs[h2].order) {
            assert(v.runs[h1] == v.runs[h2]);
        }
    }
}

/// No free run below the top order has a free buddy of its own order:
/// the buddy is handed out, or split, or part of a larger run, or there
/// is none.
pub proof fn law_coalesced(v: BuddyView, h: int, o: nat)
    requires
        v.wf(),
        v.is_free_run(h, o),
    ensures
        !v.can_merge(h, o),
{
    assert(is_listed(v.runs, Set::empty(), h));
}

/// Where every page is free, the block of the next order around a run
/// reaches beyond the arena.
pub proof fn lemma_no_room(v: BuddyView, h: int, o: nat)
    requires
        v.wf(),
        all_free(v),
        v.is_head(h),
        v.runs[h].order == o,
        o + 1 < MAX_BUDDY_ORDER,
    ensures
        block_start(h, o + 1) + pow2(o + 1) > v.runs.len(),
    decreases o,
{
    let n = v.runs.len() as int;
    let d = pow2(o) as int;
    let b = buddy_index(h, o);
    assert(v.runs[h].head == h);
    super::pow2::lemma_buddy(h, o);
    super::pow2::lemma_block_start_buddy(h, o);
    super::pow2::lemma_pow2_double(o);
    if block_start(h, o + 1) + pow2(o + 1) <= n {
        assert(0 <= b < n);
        lemma_buddy_is_head(v.runs, h);
        assert(is_listed(v.runs, Set::empty(), h));
        assert(is_listed(v.runs, Set::empty(), b));
        let ob = v.runs[b].order;
        assert(ob < o);
        // the buddy is aligned to the size of the run, so the block of
        // the next order around the buddy's run starts at the buddy
        super::pow2::lemma_aligned_weaken(b, o, ob + 1);
        vstd::arithmetic::power2::lemma_pow2_pos(ob + 1);
        super::pow2::lemma_block_start(b, b, ob + 1);
        super::pow2::lemma_pow2_increases(ob + 1, o);
        lemma_no_room(v, b, ob);
    }
}

/// Where no run is handed out, every run is as large as the arena allows.
pub proof fn law_fully_coalesced(v: BuddyView, j: int)
    requires
        v.wf(),
        forall|h: int| !v.is_live(h),
        0 <= j < v.page_count(),
    ensures
        maximal_run(v, j),
{
    assert forall|i: int| 0 <= i < v.runs.len() implies !(#[trigger] v.runs[i]).allocated by {
        let r = v.runs[i];
        assert(v.runs[r.head] == r);
        assert(!v.is_live(r.head));
    }
    let r = v.runs[j];
    let o = r.order;
    assert(v.runs[r.head] == r);
    super::pow2::lemma_block_start(j, r.head, o);
    if o + 1 < MAX_BUDDY_ORDER {
        lemma_no_room(v, r.head, o);
        super::pow2::lemma_block_start_buddy(r.head, o);
        super::pow2::lemma_pow2_double(o);
        super::pow2::lemma_block_start(j, block_start(r.head, o + 1), o + 1);
    }
}

/// Where no run is handed out, the runs are the same whatever was handed
/// out and given back before: two such states of one arena have the same runs.
pub proof fn law_runs_restored(v: BuddyView, w: BuddyView)
    requires
        v.wf(),
        w.wf(),
        v.page_count() == w.page_count(),
        forall|h: int| !v.is_live(h),
        forall|h: int| !w.is_live(h),
    ensures
        v.runs == w.runs,
{
    assert forall|j: int| 0 <= j < v.runs.len() implies v.runs[j] == w.runs[j] by {
        law_fully_coalesced(v, j);
        law_fully_coalesced(w, j);
        let a = v.runs[j];
        let b = w.runs[j];
        assert(v.runs[a.head] == a);
        assert(w.runs[b.head] == b);
        assert(!v.is_live(a.head));
        assert(!w.is_live(b.head));
        if a.order < b.order {
            super::pow2::lemma_block_nested(j, a.order + 1, b.order);
        }
        if b.order < a.order {
            super::pow2::lemma_block_nested(j, b.order + 1, a.order);
        }
    }
    assert(v.runs =~= w.runs);
}

/// Where no run is handed out, every page is free.
pub proof fn law_conservation(v: BuddyView)
    requires
        v.wf(),
        forall|h: int| !v.is_live(h),
    ensures
        v.free_pages() == v.page_count(),
{
    assert forall|j: int| 0 <= j < v.runs.len() implies !(#[trigger] v.runs[j]).allocated by {
        let r = v.runs[j];
        assert(v.runs[r.head] == r);
        assert(!v.is_live(r.head));
    }
    lemma_count_bound(v.runs, v.runs.len());
}

/// Handing out a run of order `k` takes `2^k` pages from the free pages.
pub proof fn law_handed_out_count(pre: BuddyView, post: BuddyView, p: int, k: nat)
    requires
        pre.wf(),
        post.wf(),
        handed_out(pre.runs, post.runs, p),
        0 <= p < pre.runs.len(),
        !pre.runs[p].allocated,
        post.runs[p] == (RunInfo { head: p, order: k, allocated: true }),
    ensures
        post.free_pages() + pow2(k) == pre.free_pages(),
{
    lemma_run_block(post.runs, p);
    let hi = p + pow2(k);
    assert(p <= hi <= post.runs.len());
    assert forall|j: int| p <= j < hi implies !(#[trigger] pre.runs[j]).allocated
        && post.runs[j].allocated by {
        assert(post.runs[j] == post.runs[p]);
        if pre.runs[j].allocated {
            assert(pre.runs[pre.runs[j].head] == pre.runs[j]);
        }
    }
    assert forall|j: int| 0 <= j < pre.runs.len() && !(p <= j < hi) implies (
    #[trigger] pre.runs[j]).allocated == post.runs[j].allocated by {
        let r1 = post.runs[j];
        assert(r1.head != p);
    }
    lemma_count_flip(pre.runs, post.runs, p, hi, pre.runs.len());
}

/// Taking back a run of order `k` adds `2^k` pages to the free pages.
pub proof fn law_taken_back_count(pre: BuddyView, post: BuddyView, p: int)
    requires
        pre.wf(),
        taken_back(pre.runs, post.runs, p),
        pre.is_live(p),
    ensures
        post.free_pages() == pre.free_pages() + pow2(pre.runs[p].order),
{
    lemma_run_block(pre.runs, p);
    let hi = p + pow2(pre.runs[p].order);
    assert forall|j: int| p <= j < hi implies !(#[trigger] post.runs[j]).allocated
        && pre.runs[j].allocated by {
        assert(pre.runs[j] == pre.runs[p]);
    }
    assert forall|j: int| 0 <= j < pre.runs.len() && !(p <= j < hi) implies (
    #[trigger] post.runs[j]).allocated == pre.runs[j].allocated by {
        assert(pre.runs[j].head != p);
    }
    lemma_count_flip(post.runs, pre.runs, p, hi, pre.runs.len());
}

/// Where every run handed out has two pages or more and no free run has,
/// a free page is the last page of the arena, at an even index.
pub proof fn lemma_lone_page(v: BuddyView, j: int)
    requires
        v.wf(),
        forall|h: int| v.is_live(h) ==> v.runs[h].order >= 1,
        v.first_fit(1) is None,
        0 <= j < v.runs.len(),
        !v.runs[j].allocated,
    ensures
        j == v.runs.len() - 1,
{
    let none = Set::<int>::empty();
    vstd::arithmetic::power2::lemma2_to64();
    let r = v.runs[j];
    let h = r.head;
    assert(v.runs[h] == r);
    assert(is_listed(v.runs, none, h));
    if r.order >= 1 {
        lemma_first_fit_none(v, 1, r.order as int);
        assert(v.free[r.order as int].contains(h));
    }
    assert(r.order == 0);
    assert(h == j);
    let b = buddy_index(j, 0);
    assert(j % 1 == 0);
    super::pow2::lemma_buddy(j, 0);
    if 0 <= b < v.runs.len() {
        lemma_buddy_is_head(v.runs, j);
        assert(v.runs[b].order == 0);
        if v.runs[b].allocated {
            assert(v.is_live(b));
        } else {
            assert(is_listed(v.runs, none, b));
        }
    }
}

/// Where every run handed out has two pages or more, there is a free
/// run of two pages or more exactly where two pages are free.
pub proof fn law_room_for_two(v: BuddyView)
    requires
        v.wf(),
        forall|h: int| v.is_live(h) ==> v.runs[h].order >= 1,
    ensures
        v.first_fit(1) is Some <==> v.free_pages() >= 2,
{
    let n = v.runs.len();
    let none = Set::<int>::empty();
    vstd::arithmetic::power2::lemma2_to64();
    if v.first_fit(1) is Some {
        lemma_first_fit(v, 1);
        let m = v.first_fit(1).unwrap();
        let p = v.free[m as int][0];
        assert(is_listed(v.runs, none, v.free[m as int][0]));
        lemma_run_block(v.runs, p);
        super::pow2::lemma_pow2_increases(1, m);
        assert(v.runs[p + 1] == v.runs[p]);
        lemma_count_two(v.runs, n, p, p + 1);
    }
    if v.free_pages() >= 2 && v.first_fit(1) is None {
        let w = lemma_count_witness(v.runs, n, 2);
        // both free pages lie in runs of one page, whose buddies would be
        // free runs of one page too if they lay in the arena
        lemma_lone_page(v, w.0);
        lemma_lone_page(v, w.1);
    }
}

} // verus!
