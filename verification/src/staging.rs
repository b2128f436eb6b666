//! Host buffers for objects in flight, bounded in bytes and recycled.
use crate::buf::AlignedBuf;
use crate::buf::aligned_capacity;
use crate::object::ALIGN;
use vstd::prelude::*;

verus! {

/// The smallest size for which a much larger buffer is not taken.
pub const REUSE_FLOOR: usize = 1048576;

/// Whether a free buffer of that capacity serves `len` bytes: it fits, and is not absurdly larger.
pub open spec fn serves(cap: int, len: int) -> bool {
    len <= cap <= 2 * if len > REUSE_FLOOR { len } else { REUSE_FLOOR as int }
}

/// The capacities of the free buffers.
pub open spec fn capacities(free: Seq<AlignedBuf>) -> Seq<int> {
    Seq::new(free.len(), |i: int| free[i].whole().len() as int)
}

/// The bytes of the first `n` capacities.
pub open spec fn sum(caps: Seq<int>, n: int) -> int
    decreases n,
{
    if n <= 0 { 0 } else { sum(caps, n - 1) + caps[n - 1] }
}

/// The smallest of the first `n` buffers that serves `len` bytes, the first of them among equals.
pub open spec fn best_fit(caps: Seq<int>, len: int, n: int) -> Option<int>
    decreases n,
{
    if n <= 0 {
        None
    } else {
        match best_fit(caps, len, n - 1) {
            Some(b) => if serves(caps[n - 1], len) && caps[n - 1] < caps[b] { Some(n - 1) } else { Some(b) },
            None => if serves(caps[n - 1], len) { Some(n - 1) } else { None },
        }
    }
}

/// How many free buffers stay when the last ones are dropped until `need` more bytes fit.
pub open spec fn kept_free(caps: Seq<int>, allocated: int, need: int, budget: int, n: int) -> int
    decreases n,
{
    if n > 0 && allocated + need > budget {
        kept_free(caps, allocated - caps[n - 1], need, budget, n - 1)
    } else {
        n
    }
}

/// The buffers that are not in use, and the bytes of all that exist.
#[verifier::ext_equal]
pub struct StagingView {
    pub budget: int,
    pub allocated: int,
    pub free: Seq<int>,
}

impl StagingView {
    /// The bytes of the buffers that are out on lease.
    pub open spec fn leased(self) -> int {
        self.allocated - sum(self.free, self.free.len() as int)
    }

    pub open spec fn sound(self) -> bool {
        &&& 0 <= self.leased()
        &&& self.allocated <= self.budget
        &&& forall|i: int| 0 <= i < self.free.len() ==> (#[trigger] self.free[i]) >= 0
    }

    /// The state in which the free buffers that are in the way of `len` new bytes are dropped.
    pub open spec fn cleared(self, len: int) -> StagingView {
        let k = kept_free(
            self.free,
            self.allocated,
            aligned_capacity(len),
            self.budget,
            self.free.len() as int,
        );
        StagingView {
            allocated: self.allocated - (sum(self.free, self.free.len() as int) - sum(self.free, k)),
            free: self.free.take(k),
            ..self
        }
    }

    /// Whether a buffer of `len` bytes can be had now.
    pub open spec fn grants(self, len: int) -> bool {
        ||| best_fit(self.free, len, self.free.len() as int) is Some
        ||| self.cleared(len).allocated + aligned_capacity(len) <= self.budget
    }

    /// The state after a buffer of `len` bytes was asked for.
    pub open spec fn taken(self, len: int) -> StagingView {
        match best_fit(self.free, len, self.free.len() as int) {
            Some(b) => StagingView {
                free: self.free.update(b, self.free.last()).drop_last(),
                ..self
            },
            None => {
                let c = self.cleared(len);
                if c.allocated + aligned_capacity(len) <= self.budget {
                    StagingView { allocated: c.allocated + aligned_capacity(len), ..c }
                } else {
                    c
                }
            },
        }
    }
}

/// Recycled buffers within a budget of bytes.
pub struct Staging {
    budget: u64,
    /// Bytes of every buffer that exists (leased or free).
    allocated: u64,
    free: Vec<AlignedBuf>,
}

impl View for Staging {
    type V = StagingView;

    closed spec fn view(&self) -> StagingView {
        StagingView {
            budget: self.budget as int,
            allocated: self.allocated as int,
            free: capacities(self.free@),
        }
    }
}

proof fn lemma_sum_grows(caps: Seq<int>, m: int, n: int)
    requires
        0 <= m <= n <= caps.len(),
        forall|i: int| 0 <= i < caps.len() ==> (#[trigger] caps[i]) >= 0,
    ensures
        0 <= sum(caps, m) <= sum(caps, n),
    decreases n,
{
    if n > 0 {
        if m < n {
            lemma_sum_grows(caps, m, n - 1);
        } else {
            lemma_sum_grows(caps, m - 1, n - 1);
        }
    }
}

proof fn lemma_sum_same(a: Seq<int>, b: Seq<int>, n: int)
    requires
        0 <= n <= a.len(),
        n <= b.len(),
        forall|i: int| 0 <= i < n ==> a[i] == #[trigger] b[i],
    ensures
        sum(a, n) == sum(b, n),
    decreases n,
{
    if n > 0 {
        lemma_sum_same(a, b, n - 1);
        assert(a[n - 1] == b[n - 1]);
    }
}

proof fn lemma_sum_update(a: Seq<int>, i: int, x: int, n: int)
    requires
        0 <= i < a.len(),
        0 <= n <= a.len(),
    ensures
        sum(a.update(i, x), n) == sum(a, n) + if i < n { x - a[i] } else { 0 },
    decreases n,
{
    if n > 0 {
        lemma_sum_update(a, i, x, n - 1);
    }
}

proof fn lemma_best_fit(caps: Seq<int>, len: int, n: int)
    requires
        0 <= n <= caps.len(),
    ensures
        match best_fit(caps, len, n) {
            Some(b) => {
                &&& 0 <= b < n
                &&& serves(caps[b], len)
                &&& forall|i: int| 0 <= i < n && #[trigger] serves(caps[i], len) ==> caps[b] <= caps[i]
            },
            None => forall|i: int| 0 <= i < n ==> !#[trigger] serves(caps[i], len),
        },
    decreases n,
{
    if n > 0 {
        lemma_best_fit(caps, len, n - 1);
    }
}

proof fn lemma_kept_free(caps: Seq<int>, allocated: int, need: int, budget: int, n: int)
    requires
        0 <= n <= caps.len(),
    ensures
        0 <= kept_free(caps, allocated, need, budget, n) <= n,
    decreases n,
{
    if n > 0 && allocated + need > budget {
        lemma_kept_free(caps, allocated - caps[n - 1], need, budget, n - 1);
    }
}

/// However buffers are asked for, those that exist never take more than the budget, and what is
/// out on lease grows by exactly the capacity that was granted.
pub proof fn law_staging_stays_within_budget(s: StagingView, len: int)
    requires
        s.sound(),
        0 <= len,
    ensures
        s.taken(len).sound(),
        s.taken(len).allocated <= s.budget,
        !s.grants(len) ==> s.taken(len).leased() == s.leased(),
        s.grants(len) ==> s.taken(len).leased() == s.leased() + match best_fit(
            s.free,
            len,
            s.free.len() as int,
        ) {
            Some(b) => s.free[b],
            None => aligned_capacity(len),
        },
{
    let n = s.free.len() as int;
    lemma_best_fit(s.free, len, n);
    match best_fit(s.free, len, n) {
        Some(b) => {
            let u = s.free.update(b, s.free.last());
            lemma_sum_update(s.free, b, s.free.last(), n);
            lemma_sum_same(u, u.drop_last(), n - 1);
            assert(sum(u, n) == sum(u, n - 1) + u[n - 1]);
            assert forall|i: int| 0 <= i < s.taken(len).free.len() implies (#[trigger] s.taken(len).free[i])
                >= 0 by {
                assert(s.free[i] >= 0);
                assert(s.free[n - 1] >= 0);
            }
        },
        None => {
            let k = kept_free(s.free, s.allocated, aligned_capacity(len), s.budget, n);
            lemma_kept_free(s.free, s.allocated, aligned_capacity(len), s.budget, n);
            lemma_sum_same(s.free, s.free.take(k), k);
            lemma_sum_grows(s.free, k, n);
        },
    }
}

impl Staging {
    /// The bytes of the free buffers are part of all, and all fit the budget.
    pub open spec fn sound(&self) -> bool {
        self@.sound()
    }

    pub fn new(budget: u64) -> (s: Staging)
        ensures
            s.sound(),
            s@ == (StagingView {
                budget: if budget < 1 { 1 } else { budget as int },
                allocated: 0,
                free: Seq::empty(),
            }),
    {
        let s = Staging { budget: if budget < 1 { 1 } else { budget }, allocated: 0, free: Vec::new() };
        assert(s@.free =~= Seq::<int>::empty());
        s
    }

    /// The smallest free buffer that serves `len` bytes.
    fn fitting(&self, len: usize) -> (r: Option<usize>)
        ensures
            match best_fit(capacities(self.free@), len as int, self.free@.len() as int) {
                Some(b) => (r matches Some(i) && i == b) && 0 <= b < self.free@.len(),
                None => r is None,
            },
    {
        let most: usize = if len > REUSE_FLOOR { len } else { REUSE_FLOOR };
        let n: usize = self.free.len();
        let mut best: Option<usize> = None;
        let mut i: usize = 0;
        while i < n
            invariant
                i <= n,
                n == self.free@.len(),
                most == if len > REUSE_FLOOR { len } else { REUSE_FLOOR },
                match best_fit(capacities(self.free@), len as int, i as int) {
                    Some(b) => (best matches Some(x) && x == b) && 0 <= b < i,
                    None => best is None,
                },
            decreases n - i,
        {
            let cap: usize = self.free[i].capacity();
            assert(cap == capacities(self.free@)[i as int]);
            if cap >= len && (cap <= most || cap - most <= most) {
                match best {
                    Some(b) => {
                        let least: usize = self.free[b].capacity();
                        assert(least == capacities(self.free@)[b as int]);
                        if cap < least {
                            best = Some(i);
                        }
                    },
                    None => {
                        best = Some(i);
                    },
                }
            }
            i = i + 1;
        }
        best
    }

    /// A buffer of `len` bytes; none when the budget is exhausted.
    pub fn take(&mut self, len: usize) -> (r: Option<AlignedBuf>)
        requires
            old(self).sound(),
            len <= usize::MAX - 2 * ALIGN,
        ensures
            final(self).sound(),
            final(self)@ == old(self)@.taken(len as int),
            match r {
                Some(b) => old(self)@.grants(len as int) && b@.len() == len && b.whole().len()
                    == final(self)@.leased() - old(self)@.leased(),
                None => !old(self)@.grants(len as int),
            },
    {
        let ghost before = self@;
        let ghost caps = capacities(self.free@);
        proof {
            law_staging_stays_within_budget(self@, len as int);
            assert(caps.len() == self.free@.len());
            lemma_best_fit(caps, len as int, caps.len() as int);
        }
        match self.fitting(len) {
            Some(i) => {
                assert(best_fit(caps, len as int, caps.len() as int) == Some(i as int));
                let mut b: AlignedBuf = self.free.swap_remove(i);
                assert(b.whole().len() == caps[i as int]);
                assert(capacities(self.free@) =~= caps.update(i as int, caps.last()).drop_last());
                assert(self@ =~= before.taken(len as int));
                b.set_len(len);
                Some(b)
            },
            None => {
                let need: usize = if len == 0 { ALIGN } else { (len + (ALIGN - 1)) / ALIGN * ALIGN };
                assert(need == aligned_capacity(len as int));
                let n: usize = self.free.len();
                assert(self.free@.take(n as int) =~= self.free@);
                let ghost all = self.free@;
                let mut k: usize = n;
                while k > 0 && need as u128 > (self.budget - self.allocated) as u128
                    invariant
                        k <= n,
                        n == all.len(),
                        caps == capacities(all),
                        self.free@ == all.take(k as int),
                        self.allocated == before.allocated - (sum(caps, n as int) - sum(caps, k as int)),
                        self.budget == before.budget,
                        self.allocated <= self.budget,
                        0 <= before.allocated - sum(caps, n as int),
                        forall|i: int| 0 <= i < caps.len() ==> (#[trigger] caps[i]) >= 0,
                        kept_free(caps, self.allocated as int, need as int, before.budget, k as int)
                            == kept_free(caps, before.allocated, need as int, before.budget, n as int),
                    decreases k,
                {
                    proof {
                        lemma_sum_grows(caps, 0, k - 1);
                        assert(caps[k - 1] >= 0);
                    }
                    match self.free.pop() {
                        Some(b) => {
                            let cap: usize = b.capacity();
                            assert(cap == caps[k - 1]);
                            self.allocated = self.allocated - cap as u64;
                        },
                        None => {},
                    }
                    k = k - 1;
                    assert(self.free@ =~= all.take(k as int));
                }
                assert(capacities(self.free@) =~= caps.take(k as int));
                assert(self@ =~= before.cleared(len as int));
                if need as u128 <= (self.budget - self.allocated) as u128 {
                    self.allocated = self.allocated + need as u64;
                    assert(self@ =~= before.taken(len as int));
                    Some(AlignedBuf::new(len))
                } else {
                    assert(self@ =~= before.taken(len as int));
                    None
                }
            },
        }
    }

    /// A leased buffer comes back.
    pub fn give(&mut self, buf: AlignedBuf)
        requires
            old(self).sound(),
            buf.whole().len() <= old(self)@.leased(),
        ensures
            final(self).sound(),
            final(self)@ == (StagingView {
                free: old(self)@.free.push(buf.whole().len() as int),
                ..old(self)@
            }),
    {
        let ghost caps = capacities(self.free@);
        self.free.push(buf);
        proof {
            let more = capacities(self.free@);
            assert(more =~= caps.push(buf.whole().len() as int));
            lemma_sum_same(caps, more, caps.len() as int);
            assert forall|i: int| 0 <= i < more.len() implies (#[trigger] more[i]) >= 0 by {}
        }
        assert(self@ =~= (StagingView {
            free: old(self)@.free.push(buf.whole().len() as int),
            ..old(self)@
        }));
    }

    /// Preallocate the common sizes, as far as the budget goes: buffers for two snapshots and two
    /// rows objects are taken and given back.
    pub fn warm(&mut self, snapshot_bytes: usize, row_bytes: usize)
        requires
            old(self).sound(),
            snapshot_bytes <= usize::MAX - 2 * ALIGN,
            row_bytes <= usize::MAX - 2 * ALIGN,
        ensures
            final(self).sound(),
            final(self)@ == old(self)@.warmed(snapshot_bytes as int, row_bytes as int),
    {
        proof {
            law_staging_stays_within_budget(self@, snapshot_bytes as int);
        }
        let ghost s0 = self@;
        let a: Option<AlignedBuf> = self.take(snapshot_bytes);
        let ghost s1 = self@;
        let b: Option<AlignedBuf> = self.take(row_bytes);
        let ghost s2 = self@;
        let c: Option<AlignedBuf> = self.take(snapshot_bytes);
        let ghost s3 = self@;
        let d: Option<AlignedBuf> = self.take(row_bytes);
        proof {
            law_staging_stays_within_budget(s0, snapshot_bytes as int);
            law_staging_stays_within_budget(s1, row_bytes as int);
            law_staging_stays_within_budget(s2, snapshot_bytes as int);
            law_staging_stays_within_budget(s3, row_bytes as int);
        }
        self.give_back(a);
        self.give_back(b);
        self.give_back(c);
        self.give_back(d);
    }

    fn give_back(&mut self, buf: Option<AlignedBuf>)
        requires
            old(self).sound(),
            buf matches Some(b) ==> b.whole().len() <= old(self)@.leased(),
        ensures
            final(self).sound(),
            final(self)@ == old(self)@.returned(
                match buf {
                    Some(b) => Some(b.whole().len() as int),
                    None => None,
                },
            ),
            final(self)@.leased() == old(self)@.leased() - match buf {
                Some(b) => b.whole().len() as int,
                None => 0,
            },
    {
        match buf {
            Some(b) => {
                let ghost caps = self@.free;
                proof {
                    lemma_sum_same(caps, caps.push(b.whole().len() as int), caps.len() as int);
                }
                self.give(b);
            },
            None => {},
        }
    }
}

impl StagingView {
    /// The capacity that a request for `len` bytes gets.
    pub open spec fn granted(self, len: int) -> Option<int> {
        if self.grants(len) { Some(self.taken(len).leased() - self.leased()) } else { None }
    }

    pub open spec fn returned(self, cap: Option<int>) -> StagingView {
        match cap {
            Some(c) => StagingView { free: self.free.push(c), ..self },
            None => self,
        }
    }

    /// The state after the common sizes were taken and given back.
    pub open spec fn warmed(self, snapshot: int, rows: int) -> StagingView {
        let s1 = self.taken(snapshot);
        let s2 = s1.taken(rows);
        let s3 = s2.taken(snapshot);
        let s4 = s3.taken(rows);
        s4.returned(self.granted(snapshot)).returned(s1.granted(rows)).returned(
            s2.granted(snapshot),
        ).returned(s3.granted(rows))
    }
}

/// A free buffer serves where it is large enough and not more than twice what is asked for, a mebibyte
/// at least being taken as asked for.
pub proof fn law_buffers_that_serve(cap: int, len: int)
    ensures
        serves(cap, len) <==> len <= cap && (cap <= 2 * len || cap <= 2 * 1048576),
{
}

/// Of the free buffers that serve the smallest is taken, and one is found where there is any.
pub proof fn law_smallest_buffer_that_serves(caps: Seq<int>, len: int, i: int)
    requires
        0 <= i < caps.len(),
    ensures
        match best_fit(caps, len, caps.len() as int) {
            Some(b) => 0 <= b < caps.len() && serves(caps[b], len) && (serves(caps[i], len) ==> caps[b]
                <= caps[i]),
            None => !serves(caps[i], len),
        },
{
    lemma_smallest(caps, len, caps.len() as int, i);
}

proof fn lemma_smallest(caps: Seq<int>, len: int, n: int, i: int)
    requires
        0 <= n <= caps.len(),
    ensures
        match best_fit(caps, len, n) {
            Some(b) => 0 <= b < n && serves(caps[b], len) && (0 <= i < n && serves(caps[i], len) ==> caps[b]
                <= caps[i]),
            None => 0 <= i < n ==> !serves(caps[i], len),
        },
    decreases n,
{
    if n > 0 {
        lemma_smallest(caps, len, n - 1, i);
    }
}

/// Free buffers are given up from the last one on, and no more of them than it takes.
pub proof fn law_no_buffer_is_given_up_needlessly(s: StagingView, len: int)
    requires
        s.sound(),
        0 <= len,
    ensures
        ({
            let c = s.cleared(len);
            &&& c.free.len() <= s.free.len()
            &&& c.free == s.free.take(c.free.len() as int)
            &&& s.allocated + aligned_capacity(len) <= s.budget ==> c.free.len() == s.free.len()
            &&& c.free.len() == 0 || c.allocated + aligned_capacity(len) <= s.budget
            &&& c.free.len() < s.free.len() ==> c.allocated + s.free[c.free.len() as int] + aligned_capacity(len)
                > s.budget
            &&& c.budget == s.budget
        }),
{
    let n = s.free.len() as int;
    lemma_given_up(s.free, s.allocated, aligned_capacity(len), s.budget, n);
    let k = kept_free(s.free, s.allocated, aligned_capacity(len), s.budget, n);
    assert(s.free.take(k) =~= s.free.take(s.free.take(k).len() as int));
}

proof fn lemma_given_up(caps: Seq<int>, allocated: int, need: int, budget: int, n: int)
    requires
        0 <= n <= caps.len(),
    ensures
        ({
            let k = kept_free(caps, allocated, need, budget, n);
            let left = allocated - (sum(caps, n) - sum(caps, k));
            &&& 0 <= k <= n
            &&& allocated + need <= budget ==> k == n
            &&& k == 0 || left + need <= budget
            &&& k < n ==> left + caps[k] + need > budget
        }),
    decreases n,
{
    if n > 0 && allocated + need > budget {
        lemma_given_up(caps, allocated - caps[n - 1], need, budget, n - 1);
    }
}

} // verus!
