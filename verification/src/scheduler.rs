//! The scheduler of continuous batching: which requests run, what they reserve, and which tokens
//! go into the next batch. One scheduler owns all changes of the model's sequences.
use crate::engine::{continuous_pages, starts_with, Reason};
use crate::engine::{countable, law_fewer_choices_need_no_more, reserved_pages};
use crate::role::Span;
use vstd::prelude::*;

verus! {

/// A request as far as the scheduler reads it; `id` finds the rest of it again.
pub struct Ticket {
    pub id: u64,
    /// How many outputs are wanted.
    pub n: usize,
    pub ids: Vec<u32>,
    /// Role of every prompt token (prefix cache tags and snapshot points).
    pub spans: Vec<Span>,
    pub max_tokens: usize,
}

impl Ticket {
    /// The pages that the whole request reserves.
    pub open spec fn pages(self) -> int {
        reserved_pages(self.ids@.len() as int, self.max_tokens as int, self.n as int)
    }

    /// Whether its reservation can be counted.
    pub open spec fn counts(self) -> bool {
        countable(self.ids@.len() as int, self.max_tokens as int, self.n as int)
    }
}

/// One output of a request.
pub struct Choice {
    pub seq: u64,
    /// The token that was sampled last and is not yet stepped.
    pub pending: Option<u32>,
    pub stepped: Vec<u32>,
    pub finished: bool,
}

/// A running request: a prompt in one sequence until its prefill is done, then one sequence for
/// each of its outputs.
pub struct Group {
    pub ticket: Ticket,
    pub root: Option<u64>,
    pub choices: Vec<Choice>,
    pub credits: usize,
    /// Whether objects of the prefix cache are still on their way.
    pub restoring: bool,
    pub imported: usize,
    pub restored: usize,
    pub reused: usize,
    /// Whether the logits behind the last stepped prompt token are at hand.
    pub logits: bool,
}

/// The sequence of the last finished output, kept for a prompt that goes on from it.
pub struct Idle {
    pub seq: u64,
    pub ids: Vec<u32>,
    pub logits: bool,
}

/// How many of the first `n` outputs still run.
pub open spec fn live(choices: Seq<Choice>, n: int) -> int
    decreases n,
{
    if n <= 0 {
        0
    } else {
        live(choices, n - 1) + if choices[n - 1].finished { 0int } else { 1int }
    }
}

impl Group {
    pub open spec fn running(self) -> int {
        live(self.choices@, self.choices@.len() as int)
    }

    /// Whether something of the request still runs.
    pub open spec fn active(self) -> bool {
        self.root is Some || self.running() > 0
    }

    /// The sequences that count against the limit: before the prompt is shared out, all that the
    /// request will need.
    pub open spec fn sequences(self) -> int {
        if self.root is Some { self.ticket.n as int } else { self.running() }
    }

    /// The pages that have to be reserved: those of outputs that are done are free again.
    pub open spec fn due(self) -> int {
        if self.root is Some {
            self.credits as int
        } else {
            reserved_pages(
                self.ticket.ids@.len() as int,
                self.ticket.max_tokens as int,
                self.running(),
            )
        }
    }

    /// A prompt that is not shared out has no outputs and reserves for all of them; afterwards
    /// there are no more outputs than were wanted, and enough is reserved for those that run.
    pub open spec fn sound(self) -> bool {
        &&& self.ticket.counts()
        &&& self.choices@.len() <= self.ticket.n
        &&& self.due() <= self.credits <= self.ticket.pages()
        &&& self.root is Some ==> self.choices@.len() == 0 && self.credits == self.ticket.pages()
    }
}

/// Reserved pages of the first `n` groups.
pub open spec fn pages_used(groups: Seq<Group>, n: int) -> int
    decreases n,
{
    if n <= 0 { 0 } else { pages_used(groups, n - 1) + groups[n - 1].credits }
}

/// Sequences of the first `n` groups.
pub open spec fn sequences_used(groups: Seq<Group>, n: int) -> int
    decreases n,
{
    if n <= 0 { 0 } else { sequences_used(groups, n - 1) + groups[n - 1].sequences() }
}

proof fn lemma_live(choices: Seq<Choice>, n: int)
    requires
        0 <= n <= choices.len(),
    ensures
        0 <= live(choices, n) <= n,
        (live(choices, n) == 0) == forall|i: int| 0 <= i < n ==> (#[trigger] choices[i]).finished,
    decreases n,
{
    if n > 0 {
        lemma_live(choices, n - 1);
        if live(choices, n) == 0 {
            assert(choices[n - 1].finished);
        } else if choices[n - 1].finished {
            let i = choose|i: int| 0 <= i < n - 1 && !(#[trigger] choices[i]).finished;
            assert(!choices[i].finished);
        }
    }
}

/// What the first `n` groups use depends on them alone.
proof fn lemma_used_same(a: Seq<Group>, b: Seq<Group>, n: int)
    requires
        0 <= n <= a.len(),
        n <= b.len(),
        forall|i: int| 0 <= i < n ==> a[i].credits == (#[trigger] b[i]).credits && a[i].sequences()
            == b[i].sequences(),
    ensures
        pages_used(a, n) == pages_used(b, n),
        sequences_used(a, n) == sequences_used(b, n),
    decreases n,
{
    if n > 0 {
        lemma_used_same(a, b, n - 1);
        assert(a[n - 1].credits == b[n - 1].credits);
    }
}

/// One group changes what it uses.
proof fn lemma_used_update(groups: Seq<Group>, i: int, g: Group, n: int)
    requires
        0 <= i < groups.len(),
        0 <= n <= groups.len(),
    ensures
        pages_used(groups.update(i, g), n) == pages_used(groups, n) + if i < n {
            g.credits - groups[i].credits
        } else {
            0
        },
        sequences_used(groups.update(i, g), n) == sequences_used(groups, n) + if i < n {
            g.sequences() - groups[i].sequences()
        } else {
            0
        },
    decreases n,
{
    if n > 0 {
        lemma_used_update(groups, i, g, n - 1);
    }
}

proof fn lemma_used_nonnegative(groups: Seq<Group>, n: int)
    requires
        0 <= n <= groups.len(),
    ensures
        0 <= pages_used(groups, n),
        0 <= sequences_used(groups, n),
    decreases n,
{
    if n > 0 {
        lemma_used_nonnegative(groups, n - 1);
        lemma_live(groups[n - 1].choices@, groups[n - 1].choices@.len() as int);
    }
}

/// The first groups use no more than all of them.
proof fn lemma_used_grows(groups: Seq<Group>, m: int, n: int)
    requires
        0 <= m <= n <= groups.len(),
    ensures
        pages_used(groups, m) <= pages_used(groups, n),
        sequences_used(groups, m) <= sequences_used(groups, n),
    decreases n,
{
    if m < n {
        lemma_used_grows(groups, m, n - 1);
        lemma_live(groups[n - 1].choices@, groups[n - 1].choices@.len() as int);
    }
}

fn running_of(g: &Group) -> (n: usize)
    ensures
        n == g.running(),
        n <= g.choices@.len(),
{
    let mut n: usize = 0;
    let len: usize = g.choices.len();
    let mut i: usize = 0;
    while i < len
        invariant
            i <= len,
            len == g.choices@.len(),
            n == live(g.choices@, i as int),
            n <= i,
        decreases len - i,
    {
        if !g.choices[i].finished {
            n = n + 1;
        }
        i = i + 1;
    }
    n
}

/// What is to be done about the request at the head of the queue.
#[derive(Clone, Copy, Debug, PartialEq, Eq, Structural)]
pub enum Admission {
    /// Nobody waits.
    Idle,
    /// It exceeds what there is at all.
    Refuse,
    /// It has to wait until others are done, and everybody behind it too.
    Wait,
    /// It can run, reserving so many pages.
    Run(usize),
}

/// What becomes of the idle sequence when a request starts.
pub enum Hot {
    /// There is none.
    Cold,
    /// The request goes on from it.
    Reuse(Idle),
    /// It is of no use and its sequence is free.
    Release(u64),
}

pub const EXCEEDS: &'static str = "request exceeds configured sequence or KV capacity";

/// The scheduler's own state.
pub struct Scheduler {
    pub waiting: Vec<Ticket>,
    pub groups: Vec<Group>,
    pub cursor: usize,
    pub idle: Option<Idle>,
    /// Pages of the pool.
    pub page_capacity: usize,
    pub sequence_capacity: usize,
}

impl Scheduler {
    pub open spec fn pages(self) -> int {
        pages_used(self.groups@, self.groups@.len() as int)
    }

    pub open spec fn sequences(self) -> int {
        sequences_used(self.groups@, self.groups@.len() as int)
    }

    /// Every group is sound, and all of them together stay within the limits.
    pub open spec fn sound(self) -> bool {
        &&& forall|i: int| 0 <= i < self.groups@.len() ==> (#[trigger] self.groups@[i]).sound()
        &&& self.pages() <= self.page_capacity
        &&& self.sequences() <= self.sequence_capacity
    }

    pub fn new(page_capacity: usize, sequence_capacity: usize) -> (s: Scheduler)
        ensures
            s.sound(),
            s.waiting@ == Seq::<Ticket>::empty(),
            s.groups@ == Seq::<Group>::empty(),
            s.cursor == 0,
            s.idle is None,
            s.page_capacity == page_capacity,
            s.sequence_capacity == sequence_capacity,
    {
        Scheduler {
            waiting: Vec::new(),
            groups: Vec::new(),
            cursor: 0,
            idle: None,
            page_capacity,
            sequence_capacity,
        }
    }

    /// A request joins the queue.
    pub fn enqueue(&mut self, t: Ticket)
        ensures
            final(self).waiting@ == old(self).waiting@.push(t),
            *final(self) == (Scheduler { waiting: final(self).waiting, ..*old(self) }),
    {
        self.waiting.push(t);
    }

    /// Reserve only for the outputs that still run.
    pub fn recredit(&mut self)
        requires
            old(self).sound(),
        ensures
            final(self).sound(),
            final(self).groups@.len() == old(self).groups@.len(),
            forall|i: int|
                0 <= i < old(self).groups@.len() ==> (#[trigger] final(self).groups@[i]) == (Group {
                    credits: old(self).groups@[i].due() as usize,
                    ..old(self).groups@[i]
                }) && final(self).groups@[i].credits == old(self).groups@[i].due(),
            *final(self) == (Scheduler { groups: final(self).groups, ..*old(self) }),
    {
        let n: usize = self.groups.len();
        let mut i: usize = 0;
        while i < n
            invariant
                i <= n,
                n == self.groups@.len(),
                n == old(self).groups@.len(),
                old(self).sound(),
                forall|j: int|
                    0 <= j < i ==> (#[trigger] self.groups@[j]) == (Group {
                        credits: old(self).groups@[j].due() as usize,
                        ..old(self).groups@[j]
                    }) && self.groups@[j].credits == old(self).groups@[j].due() && self.groups@[j].sound(),
                forall|j: int| i <= j < n ==> (#[trigger] self.groups@[j]) == old(self).groups@[j],
                *self == (Scheduler { groups: self.groups, ..*old(self) }),
                pages_used(self.groups@, i as int) <= pages_used(old(self).groups@, i as int),
                sequences_used(self.groups@, i as int) == sequences_used(old(self).groups@, i as int),
            decreases n - i,
        {
            let ghost before = self.groups@;
            if self.groups[i].root.is_none() {
                let g: &Group = &self.groups[i];
                let live: usize = running_of(g);
                proof {
                    law_fewer_choices_need_no_more(
                        g.ticket.ids@.len() as int,
                        g.ticket.max_tokens as int,
                        live as int,
                        g.ticket.n as int,
                    );
                }
                let credits: usize = match continuous_pages(
                    g.ticket.ids.len(),
                    g.ticket.max_tokens,
                    live,
                ) {
                    Some(c) => c,
                    None => 0,
                };
                self.groups[i].credits = credits;
            }
            proof {
                lemma_used_same(before, self.groups@, i as int);
            }
            i = i + 1;
        }
    }

    /// What becomes of the request at the head of the queue.
    pub open spec fn verdict(self) -> Admission {
        if self.waiting@.len() == 0 {
            Admission::Idle
        } else {
            let t = self.waiting@[0];
            if !t.counts() || t.pages() > self.page_capacity || t.n > self.sequence_capacity {
                Admission::Refuse
            } else if t.pages() > self.page_capacity - self.pages() || t.n > self.sequence_capacity
                - self.sequences() {
                Admission::Wait
            } else {
                Admission::Run(t.pages() as usize)
            }
        }
    }

    /// First come, first served: a large request that waits cannot starve behind smaller ones.
    pub fn admission(&self) -> (a: Admission)
        requires
            self.sound(),
        ensures
            a == self.verdict(),
    {
        if self.waiting.len() == 0 {
            return Admission::Idle;
        }
        let t: &Ticket = &self.waiting[0];
        match continuous_pages(t.ids.len(), t.max_tokens, t.n) {
            None => Admission::Refuse,
            Some(credits) => {
                if credits > self.page_capacity || t.n > self.sequence_capacity {
                    return Admission::Refuse;
                }
                let (pages, sequences) = self.used();
                if credits > self.page_capacity - pages || t.n > self.sequence_capacity - sequences {
                    Admission::Wait
                } else {
                    Admission::Run(credits)
                }
            },
        }
    }

    /// Pages and sequences in use.
    pub fn used(&self) -> (r: (usize, usize))
        requires
            self.sound(),
        ensures
            r.0 == self.pages(),
            r.1 == self.sequences(),
            r.0 <= self.page_capacity,
            r.1 <= self.sequence_capacity,
    {
        let mut pages: usize = 0;
        let mut sequences: usize = 0;
        let n: usize = self.groups.len();
        let mut i: usize = 0;
        while i < n
            invariant
                i <= n,
                n == self.groups@.len(),
                self.sound(),
                pages == pages_used(self.groups@, i as int),
                sequences == sequences_used(self.groups@, i as int),
            decreases n - i,
        {
            proof {
                lemma_used_grows(self.groups@, i + 1, n as int);
            }
            let g: &Group = &self.groups[i];
            let more: usize = if g.root.is_some() { g.ticket.n } else { running_of(g) };
            pages = pages + g.credits;
            sequences = sequences + more;
            i = i + 1;
        }
        (pages, sequences)
    }

    /// Take the request at the head of the queue, and with it the idle sequence: the request goes
    /// on from it where it repeats all of its tokens and finds its logits.
    pub fn take_front(&mut self) -> (r: (Ticket, Hot))
        requires
            old(self).waiting@.len() > 0,
        ensures
            r.0 == old(self).waiting@[0],
            final(self).waiting@ == old(self).waiting@.skip(1),
            final(self).idle is None,
            *final(self) == (Scheduler { waiting: final(self).waiting, idle: None, ..*old(self) }),
            match old(self).idle {
                None => r.1 is Cold,
                Some(h) => if h.logits && h.ids@.len() <= r.0.ids@.len() && r.0.ids@.take(
                    h.ids@.len() as int,
                ) == h.ids@ {
                    r.1 == Hot::Reuse(h)
                } else {
                    r.1 == Hot::Release(h.seq)
                },
            },
    {
        let t: Ticket = self.waiting.remove(0);
        assert(self.waiting@ =~= old(self).waiting@.skip(1));
        let hot: Hot = match self.idle.take() {
            None => Hot::Cold,
            Some(h) => if starts_with(t.ids.as_slice(), h.ids.as_slice()) && h.logits {
                Hot::Reuse(h)
            } else {
                Hot::Release(h.seq)
            },
        };
        (t, hot)
    }

    /// Refuse the request at the head of the queue.
    pub fn refuse_front(&mut self) -> (t: Ticket)
        requires
            old(self).waiting@.len() > 0,
        ensures
            t == old(self).waiting@[0],
            final(self).waiting@ == old(self).waiting@.skip(1),
            *final(self) == (Scheduler { waiting: final(self).waiting, ..*old(self) }),
    {
        let t: Ticket = self.waiting.remove(0);
        assert(self.waiting@ =~= old(self).waiting@.skip(1));
        t
    }

    /// A request starts to run in sequence `root`, `reused` of its tokens already there, with or
    /// without the logits behind them.
    pub fn start_group(
        &mut self,
        ticket: Ticket,
        root: u64,
        reused: usize,
        logits: bool,
        restoring: bool,
    )
        requires
            old(self).sound(),
            ticket.counts(),
            ticket.pages() <= old(self).page_capacity - old(self).pages(),
            ticket.n <= old(self).sequence_capacity - old(self).sequences(),
        ensures
            final(self).sound(),
            final(self).groups@.len() == old(self).groups@.len() + 1,
            final(self).groups@.drop_last() == old(self).groups@,
            ({
                let g = final(self).groups@.last();
                &&& g.ticket == ticket
                &&& g.root == Some(root)
                &&& g.choices@ == Seq::<Choice>::empty()
                &&& g.credits == ticket.pages()
                &&& g.restoring == restoring
                &&& g.imported == 0
                &&& g.restored == 0
                &&& g.reused == reused
                &&& g.logits == logits
            }),
            *final(self) == (Scheduler { groups: final(self).groups, ..*old(self) }),
    {
        let credits: usize = match continuous_pages(ticket.ids.len(), ticket.max_tokens, ticket.n) {
            Some(c) => c,
            None => 0,
        };
        let g = Group {
            ticket,
            root: Some(root),
            choices: Vec::new(),
            credits,
            restoring,
            imported: 0,
            restored: 0,
            reused,
            logits,
        };
        self.groups.push(g);
        proof {
            lemma_used_same(old(self).groups@, self.groups@, old(self).groups@.len() as int);
            assert(self.groups@.drop_last() =~= old(self).groups@);
        }
    }

    /// Replace one group by another that uses no more; the scheduler stays sound.
    proof fn lemma_replaced(a: Scheduler, b: Scheduler, gi: int)
        requires
            a.sound(),
            0 <= gi < a.groups@.len(),
            b.groups@ == a.groups@.update(gi, b.groups@[gi]),
            b.groups@[gi].sound(),
            b.groups@[gi].credits <= a.groups@[gi].credits,
            b.groups@[gi].sequences() <= a.groups@[gi].sequences(),
            b.page_capacity == a.page_capacity,
            b.sequence_capacity == a.sequence_capacity,
        ensures
            b.sound(),
    {
        lemma_used_update(a.groups@, gi, b.groups@[gi], a.groups@.len() as int);
    }

    /// A cancelled request: nothing more is restored, and the sequence of its prompt, if it is
    /// not shared out yet, is free.
    pub fn cancel(&mut self, gi: usize) -> (root: Option<u64>)
        requires
            old(self).sound(),
            gi < old(self).groups@.len(),
        ensures
            final(self).sound(),
            root == old(self).groups@[gi as int].root,
            final(self).groups@ == old(self).groups@.update(
                gi as int,
                Group { root: None, restoring: false, ..old(self).groups@[gi as int] },
            ),
            *final(self) == (Scheduler { groups: final(self).groups, ..*old(self) }),
    {
        proof {
            let g = self.groups@[gi as int];
            lemma_live(g.choices@, g.choices@.len() as int);
            law_fewer_choices_need_no_more(
                g.ticket.ids@.len() as int,
                g.ticket.max_tokens as int,
                g.running(),
                g.ticket.n as int,
            );
        }
        let root: Option<u64> = self.groups[gi].root;
        self.groups[gi].root = None;
        self.groups[gi].restoring = false;
        proof {
            assert(self.groups@ =~= old(self).groups@.update(gi as int, self.groups@[gi as int]));
            Self::lemma_replaced(*old(self), *self, gi as int);
        }
        root
    }

    /// Output `ci` of group `gi` ends. Its sequence becomes the idle one, or is free where the
    /// request was cancelled; the result is the sequence to release.
    pub fn finish(&mut self, gi: usize, ci: usize, reason: Reason, logits: bool) -> (release: Option<u64>)
        requires
            old(self).sound(),
            gi < old(self).groups@.len(),
            ci < old(self).groups@[gi as int].choices@.len(),
        ensures
            final(self).sound(),
            ({
                let g = old(self).groups@[gi as int];
                let c = g.choices@[ci as int];
                let h = final(self).groups@[gi as int];
                &&& final(self).groups@ == old(self).groups@.update(gi as int, h)
                &&& h == (Group { choices: h.choices, ..g })
                &&& h.choices@ == g.choices@.update(
                    ci as int,
                    Choice { finished: true, pending: None, ..c },
                )
                &&& if reason == Reason::Cancelled {
                    &&& release == Some(c.seq)
                    &&& final(self).idle == old(self).idle
                } else {
                    &&& release == match old(self).idle {
                        Some(i) => Some(i.seq),
                        None => None,
                    }
                    &&& final(self).idle matches Some(i) && i.seq == c.seq && i.ids@ == c.stepped@
                        && i.logits == logits
                }
            }),
            *final(self) == (Scheduler {
                groups: final(self).groups,
                idle: final(self).idle,
                ..*old(self)
            }),
    {
        let seq: u64 = self.groups[gi].choices[ci].seq;
        let release: Option<u64> = if reason == Reason::Cancelled {
            Some(seq)
        } else {
            let ids: Vec<u32> = copy_ids(&self.groups[gi].choices[ci].stepped);
            let freed: Option<u64> = match &self.idle {
                Some(i) => Some(i.seq),
                None => None,
            };
            self.idle = Some(Idle { seq, ids, logits });
            freed
        };
        self.groups[gi].choices[ci].finished = true;
        self.groups[gi].choices[ci].pending = None;
        proof {
            let g = old(self).groups@[gi as int];
            let h = self.groups@[gi as int];
            assert(h.choices@ =~= g.choices@.update(
                ci as int,
                Choice { finished: true, pending: None, ..g.choices@[ci as int] },
            ));
            lemma_live_update(g.choices@, ci as int, h.choices@[ci as int], g.choices@.len() as int);
            lemma_live(h.choices@, h.choices@.len() as int);
            law_fewer_choices_need_no_more(
                g.ticket.ids@.len() as int,
                g.ticket.max_tokens as int,
                h.running(),
                g.running(),
            );
            assert(self.groups@ =~= old(self).groups@.update(gi as int, self.groups@[gi as int]));
            Self::lemma_replaced(*old(self), *self, gi as int);
        }
        release
    }
}

/// Of the first `n` requests, those whose flag is `flag`.
pub open spec fn flagged(t: Seq<Ticket>, flags: Seq<bool>, flag: bool, n: int) -> Seq<Ticket>
    decreases n,
{
    if n <= 0 {
        Seq::empty()
    } else if flags[n - 1] == flag {
        flagged(t, flags, flag, n - 1).push(t[n - 1])
    } else {
        flagged(t, flags, flag, n - 1)
    }
}

/// Of the first `n` groups, those of which something still runs.
pub open spec fn active_groups(g: Seq<Group>, n: int) -> Seq<Group>
    decreases n,
{
    if n <= 0 {
        Seq::empty()
    } else if g[n - 1].active() {
        active_groups(g, n - 1).push(g[n - 1])
    } else {
        active_groups(g, n - 1)
    }
}

proof fn lemma_active_groups(g: Seq<Group>, n: int)
    requires
        0 <= n <= g.len(),
        forall|i: int| 0 <= i < g.len() ==> (#[trigger] g[i]).sound(),
    ensures
        active_groups(g, n).len() <= n,
        forall|i: int| 0 <= i < active_groups(g, n).len() ==> (#[trigger] active_groups(g, n)[i]).sound(),
        pages_used(active_groups(g, n), active_groups(g, n).len() as int) <= pages_used(g, n),
        sequences_used(active_groups(g, n), active_groups(g, n).len() as int) <= sequences_used(g, n),
    decreases n,
{
    if n > 0 {
        lemma_active_groups(g, n - 1);
        lemma_live(g[n - 1].choices@, g[n - 1].choices@.len() as int);
        let a = active_groups(g, n - 1);
        let b = active_groups(g, n);
        if g[n - 1].active() {
            lemma_used_same(a, b, a.len() as int);
        }
    }
}

impl Scheduler {
    /// Drop the waiting requests whose flag is set, so that they hold nothing; they are handed
    /// out.
    pub fn drop_waiting(&mut self, cancelled: &Vec<bool>) -> (gone: Vec<Ticket>)
        requires
            cancelled@.len() == old(self).waiting@.len(),
        ensures
            gone@ == flagged(old(self).waiting@, cancelled@, true, cancelled@.len() as int),
            final(self).waiting@ == flagged(
                old(self).waiting@,
                cancelled@,
                false,
                cancelled@.len() as int,
            ),
            *final(self) == (Scheduler { waiting: final(self).waiting, ..*old(self) }),
    {
        let mut gone: Vec<Ticket> = Vec::new();
        let mut kept: Vec<Ticket> = Vec::new();
        let n: usize = cancelled.len();
        let mut i: usize = 0;
        while i < n
            invariant
                i <= n,
                n == cancelled@.len(),
                n == old(self).waiting@.len(),
                self.waiting@ == old(self).waiting@.skip(i as int),
                gone@ == flagged(old(self).waiting@, cancelled@, true, i as int),
                kept@ == flagged(old(self).waiting@, cancelled@, false, i as int),
                *self == (Scheduler { waiting: self.waiting, ..*old(self) }),
            decreases n - i,
        {
            let t: Ticket = self.waiting.remove(0);
            assert(self.waiting@ =~= old(self).waiting@.skip(i + 1));
            if cancelled[i] {
                gone.push(t);
            } else {
                kept.push(t);
            }
            i = i + 1;
        }
        self.waiting = kept;
        gone
    }

    /// Forget the groups of which nothing runs any more.
    pub fn sweep(&mut self)
        requires
            old(self).sound(),
        ensures
            final(self).sound(),
            final(self).groups@ == active_groups(old(self).groups@, old(self).groups@.len() as int),
            *final(self) == (Scheduler { groups: final(self).groups, ..*old(self) }),
    {
        let mut kept: Vec<Group> = Vec::new();
        let n: usize = self.groups.len();
        let mut i: usize = 0;
        assert(self.groups@ =~= old(self).groups@.skip(0));
        while i < n
            invariant
                i <= n,
                n == old(self).groups@.len(),
                self.groups@ == old(self).groups@.skip(i as int),
                kept@ == active_groups(old(self).groups@, i as int),
                *self == (Scheduler { groups: self.groups, ..*old(self) }),
            decreases n - i,
        {
            let g: Group = self.groups.remove(0);
            assert(self.groups@ =~= old(self).groups@.skip(i + 1));
            if g.root.is_some() || running_of(&g) > 0 {
                kept.push(g);
            }
            i = i + 1;
        }
        self.groups = kept;
        proof {
            lemma_active_groups(old(self).groups@, n as int);
        }
    }

    /// Group `gi` fails: nothing of it runs any more. The result are the sequences to release.
    pub fn fail(&mut self, gi: usize) -> (release: Vec<u64>)
        requires
            old(self).sound(),
            gi < old(self).groups@.len(),
        ensures
            final(self).sound(),
            release@ == held_sequences(old(self).groups@[gi as int]),
            ({
                let g = old(self).groups@[gi as int];
                let h = final(self).groups@[gi as int];
                &&& final(self).groups@ == old(self).groups@.update(gi as int, h)
                &&& h == (Group { root: None, restoring: false, choices: h.choices, ..g })
                &&& h.choices@.len() == g.choices@.len()
                &&& forall|i: int|
                    0 <= i < g.choices@.len() ==> (#[trigger] h.choices@[i]) == (Choice {
                        finished: true,
                        ..g.choices@[i]
                    })
            }),
            *final(self) == (Scheduler { groups: final(self).groups, ..*old(self) }),
    {
        let mut release: Vec<u64> = Vec::new();
        let root: Option<u64> = self.cancel(gi);
        match root {
            Some(s) => release.push(s),
            None => {},
        }
        let ghost g = old(self).groups@[gi as int];
        let n: usize = self.groups[gi].choices.len();
        let mut i: usize = 0;
        assert(release@ =~= root_sequence(g));
        while i < n
            invariant
                i <= n,
                gi < old(self).groups@.len(),
                g == old(self).groups@[gi as int],
                n == g.choices@.len(),
                self.sound(),
                self.groups@ == old(self).groups@.update(gi as int, self.groups@[gi as int]),
                self.groups@[gi as int] == (Group {
                    root: None,
                    restoring: false,
                    choices: self.groups@[gi as int].choices,
                    ..g
                }),
                self.groups@[gi as int].choices@.len() == n,
                forall|j: int|
                    0 <= j < i ==> (#[trigger] self.groups@[gi as int].choices@[j]) == (Choice {
                        finished: true,
                        ..g.choices@[j]
                    }),
                forall|j: int|
                    i <= j < n ==> (#[trigger] self.groups@[gi as int].choices@[j]) == g.choices@[j],
                release@ == root_sequence(g) + running_sequences(g.choices@, i as int),
                *self == (Scheduler { groups: self.groups, ..*old(self) }),
            decreases n - i,
        {
            let ghost before = *self;
            let ghost gb = self.groups@[gi as int];
            if !self.groups[gi].choices[i].finished {
                release.push(self.groups[gi].choices[i].seq);
                self.groups[gi].choices[i].finished = true;
                proof {
                    let ga = self.groups@[gi as int];
                    assert(ga.choices@ =~= gb.choices@.update(i as int, ga.choices@[i as int]));
                    lemma_live_update(gb.choices@, i as int, ga.choices@[i as int], n as int);
                    lemma_live(ga.choices@, n as int);
                    law_fewer_choices_need_no_more(
                        ga.ticket.ids@.len() as int,
                        ga.ticket.max_tokens as int,
                        ga.running(),
                        gb.running(),
                    );
                    assert(self.groups@ =~= before.groups@.update(gi as int, ga));
                    Self::lemma_replaced(before, *self, gi as int);
                    assert(self.groups@ =~= old(self).groups@.update(gi as int, ga));
                }
                assert(release@ =~= root_sequence(g) + running_sequences(g.choices@, i + 1));
            }
            i = i + 1;
        }
        release
    }
}

/// The sequence of a prompt that is not shared out.
pub open spec fn root_sequence(g: Group) -> Seq<u64> {
    match g.root {
        Some(s) => seq![s],
        None => Seq::empty(),
    }
}

/// The sequences of those of the first `n` outputs that still run.
pub open spec fn running_sequences(choices: Seq<Choice>, n: int) -> Seq<u64>
    decreases n,
{
    if n <= 0 {
        Seq::empty()
    } else if choices[n - 1].finished {
        running_sequences(choices, n - 1)
    } else {
        running_sequences(choices, n - 1).push(choices[n - 1].seq)
    }
}

/// The sequences that a group holds.
pub open spec fn held_sequences(g: Group) -> Seq<u64> {
    root_sequence(g) + running_sequences(g.choices@, g.choices@.len() as int)
}

/// Why a cached prefix is given up.
#[derive(Clone, Copy, Debug, PartialEq, Eq, Structural)]
pub enum RestoreError {
    /// An object ends beyond the prompt.
    Exceeds,
    /// Rows do not follow the ones before them.
    Gap,
    /// Rows of another size.
    Size,
    /// The snapshot stands elsewhere than the rows end.
    Position,
    /// The snapshot holds no logits.
    Logits,
    /// The objects ended without a snapshot.
    Incomplete,
}

impl RestoreError {
    pub open spec fn message(self) -> Seq<char> {
        match self {
            RestoreError::Exceeds => "cached object exceeds prompt"@,
            RestoreError::Gap => "non-contiguous restore rows"@,
            RestoreError::Size => "invalid cached row size"@,
            RestoreError::Position => "snapshot position differs from restored rows"@,
            RestoreError::Logits => "cached snapshot has no usable logits"@,
            RestoreError::Incomplete => "incomplete cache restore"@,
        }
    }

    pub fn text(self) -> (s: &'static str)
        ensures
            s@ == self.message(),
    {
        match self {
            RestoreError::Exceeds => "cached object exceeds prompt",
            RestoreError::Gap => "non-contiguous restore rows",
            RestoreError::Size => "invalid cached row size",
            RestoreError::Position => "snapshot position differs from restored rows",
            RestoreError::Logits => "cached snapshot has no usable logits",
            RestoreError::Incomplete => "incomplete cache restore",
        }
    }
}

pub const NO_LOGITS: &'static str = "prefill completed without logits";

impl Scheduler {
    /// Change group `gi` without what it uses: the scheduler stays sound.
    proof fn lemma_same_use(a: Scheduler, b: Scheduler, gi: int)
        requires
            a.sound(),
            0 <= gi < a.groups@.len(),
            b.groups@ == a.groups@.update(gi, b.groups@[gi]),
            b.groups@[gi].ticket == a.groups@[gi].ticket,
            b.groups@[gi].root == a.groups@[gi].root,
            b.groups@[gi].choices == a.groups@[gi].choices,
            b.groups@[gi].credits == a.groups@[gi].credits,
            b.page_capacity == a.page_capacity,
            b.sequence_capacity == a.sequence_capacity,
        ensures
            b.sound(),
    {
        assert(b.groups@[gi].sound());
        Self::lemma_replaced(a, b, gi);
    }

    /// Whether rows `[start, end)` of the cache go on where the prompt of group `gi` stands.
    pub fn check_rows(&self, gi: usize, start: usize, end: usize) -> (r: Result<(), RestoreError>)
        requires
            gi < self.groups@.len(),
        ensures
            ({
                let g = self.groups@[gi as int];
                r == if end > g.ticket.ids@.len() {
                    Err::<(), RestoreError>(RestoreError::Exceeds)
                } else if start != g.imported {
                    Err::<(), RestoreError>(RestoreError::Gap)
                } else {
                    Ok::<(), RestoreError>(())
                }
            }),
    {
        let g: &Group = &self.groups[gi];
        if end > g.ticket.ids.len() {
            Err(RestoreError::Exceeds)
        } else if start != g.imported {
            Err(RestoreError::Gap)
        } else {
            Ok(())
        }
    }

    /// Rows up to `end` were taken over.
    pub fn rows_imported(&mut self, gi: usize, end: usize)
        requires
            old(self).sound(),
            gi < old(self).groups@.len(),
        ensures
            final(self).sound(),
            final(self).groups@ == old(self).groups@.update(
                gi as int,
                Group { imported: end, ..old(self).groups@[gi as int] },
            ),
            *final(self) == (Scheduler { groups: final(self).groups, ..*old(self) }),
    {
        self.groups[gi].imported = end;
        proof {
            assert(self.groups@ =~= old(self).groups@.update(gi as int, self.groups@[gi as int]));
            Self::lemma_same_use(*old(self), *self, gi as int);
        }
    }

    /// A snapshot that ends at `end` was read, standing at `n_past` with `logits` values of the
    /// `vocab` that the model has. It completes the restore where it fits the rows before it.
    pub fn restore_snapshot(
        &mut self,
        gi: usize,
        end: usize,
        n_past: usize,
        logits: usize,
        vocab: usize,
    ) -> (r: Result<(), RestoreError>)
        requires
            old(self).sound(),
            gi < old(self).groups@.len(),
        ensures
            final(self).sound(),
            ({
                let g = old(self).groups@[gi as int];
                r == if end > g.ticket.ids@.len() {
                    Err::<(), RestoreError>(RestoreError::Exceeds)
                } else if n_past != g.imported || n_past != end {
                    Err::<(), RestoreError>(RestoreError::Position)
                } else if logits != vocab {
                    Err::<(), RestoreError>(RestoreError::Logits)
                } else {
                    Ok::<(), RestoreError>(())
                }
            }),
            r is Err ==> *final(self) == *old(self),
            r is Ok ==> final(self).groups@ == old(self).groups@.update(
                gi as int,
                Group {
                    logits: true,
                    restored: n_past,
                    reused: n_past,
                    restoring: false,
                    ..old(self).groups@[gi as int]
                },
            ) && *final(self) == (Scheduler { groups: final(self).groups, ..*old(self) }),
    {
        if end > self.groups[gi].ticket.ids.len() {
            return Err(RestoreError::Exceeds);
        }
        if n_past != self.groups[gi].imported || n_past != end {
            return Err(RestoreError::Position);
        }
        if logits != vocab {
            return Err(RestoreError::Logits);
        }
        self.groups[gi].logits = true;
        self.groups[gi].restored = n_past;
        self.groups[gi].reused = n_past;
        self.groups[gi].restoring = false;
        proof {
            assert(self.groups@ =~= old(self).groups@.update(gi as int, self.groups@[gi as int]));
            Self::lemma_same_use(*old(self), *self, gi as int);
        }
        Ok(())
    }

    /// The restore is given up: the prompt starts from nothing (its sequence has to be reset).
    pub fn restore_failed(&mut self, gi: usize)
        requires
            old(self).sound(),
            gi < old(self).groups@.len(),
        ensures
            final(self).sound(),
            final(self).groups@ == old(self).groups@.update(
                gi as int,
                Group {
                    restoring: false,
                    imported: 0,
                    restored: 0,
                    reused: 0,
                    logits: false,
                    ..old(self).groups@[gi as int]
                },
            ),
            *final(self) == (Scheduler { groups: final(self).groups, ..*old(self) }),
    {
        self.groups[gi].restoring = false;
        self.groups[gi].imported = 0;
        self.groups[gi].restored = 0;
        self.groups[gi].reused = 0;
        self.groups[gi].logits = false;
        proof {
            assert(self.groups@ =~= old(self).groups@.update(gi as int, self.groups@[gi as int]));
            Self::lemma_same_use(*old(self), *self, gi as int);
        }
    }

    /// No more objects come. With rows but no snapshot the restore has failed; without any there
    /// was nothing to restore.
    pub fn restore_ended(&mut self, gi: usize) -> (r: Result<(), RestoreError>)
        requires
            old(self).sound(),
            gi < old(self).groups@.len(),
        ensures
            final(self).sound(),
            r == if old(self).groups@[gi as int].imported > 0 {
                Err::<(), RestoreError>(RestoreError::Incomplete)
            } else {
                Ok::<(), RestoreError>(())
            },
            r is Err ==> *final(self) == *old(self),
            r is Ok ==> final(self).groups@ == old(self).groups@.update(
                gi as int,
                Group { restoring: false, ..old(self).groups@[gi as int] },
            ) && *final(self) == (Scheduler { groups: final(self).groups, ..*old(self) }),
    {
        if self.groups[gi].imported > 0 {
            return Err(RestoreError::Incomplete);
        }
        self.groups[gi].restoring = false;
        proof {
            assert(self.groups@ =~= old(self).groups@.update(gi as int, self.groups@[gi as int]));
            Self::lemma_same_use(*old(self), *self, gi as int);
        }
        Ok(())
    }

    /// Whether the prompt of group `gi`, which stands at `pos`, can be shared out.
    pub fn ready(&self, gi: usize, pos: usize) -> (r: bool)
        requires
            gi < self.groups@.len(),
        ensures
            r == ({
                let g = self.groups@[gi as int];
                !g.restoring && g.root is Some && pos == g.ticket.ids@.len()
            }),
    {
        let g: &Group = &self.groups[gi];
        !g.restoring && g.root.is_some() && pos == g.ticket.ids.len()
    }

    /// Logits came with the last tokens of the prompt.
    pub fn prefilled(&mut self, gi: usize)
        requires
            old(self).sound(),
            gi < old(self).groups@.len(),
        ensures
            final(self).sound(),
            final(self).groups@ == old(self).groups@.update(
                gi as int,
                Group { logits: true, ..old(self).groups@[gi as int] },
            ),
            *final(self) == (Scheduler { groups: final(self).groups, ..*old(self) }),
    {
        self.groups[gi].logits = true;
        proof {
            assert(self.groups@ =~= old(self).groups@.update(gi as int, self.groups@[gi as int]));
            Self::lemma_same_use(*old(self), *self, gi as int);
        }
    }

    /// Share the prompt of group `gi` out to its outputs, one per sequence.
    pub fn share_out(&mut self, gi: usize, seqs: &Vec<u64>)
        requires
            old(self).sound(),
            gi < old(self).groups@.len(),
            old(self).groups@[gi as int].root is Some,
            seqs@.len() == old(self).groups@[gi as int].ticket.n,
        ensures
            final(self).sound(),
            ({
                let g = old(self).groups@[gi as int];
                let h = final(self).groups@[gi as int];
                &&& final(self).groups@ == old(self).groups@.update(gi as int, h)
                &&& h == (Group { root: None, logits: false, choices: h.choices, ..g })
                &&& h.choices@.len() == seqs@.len()
                &&& forall|i: int|
                    0 <= i < seqs@.len() ==> {
                        let c = #[trigger] h.choices@[i];
                        c.seq == seqs@[i] && c.pending is None && c.stepped@ == g.ticket.ids@
                            && !c.finished
                    }
            }),
            *final(self) == (Scheduler { groups: final(self).groups, ..*old(self) }),
    {
        let mut choices: Vec<Choice> = Vec::new();
        let n: usize = seqs.len();
        let mut i: usize = 0;
        while i < n
            invariant
                i <= n,
                n == seqs@.len(),
                *self == *old(self),
                gi < self.groups@.len(),
                choices@.len() == i,
                forall|j: int|
                    0 <= j < i ==> {
                        let c = #[trigger] choices@[j];
                        c.seq == seqs@[j] && c.pending is None && c.stepped@
                            == self.groups@[gi as int].ticket.ids@ && !c.finished
                    },
            decreases n - i,
        {
            let stepped: Vec<u32> = copy_ids(&self.groups[gi].ticket.ids);
            choices.push(Choice { seq: seqs[i], pending: None, stepped, finished: false });
            i = i + 1;
        }
        proof {
            lemma_all_live(choices@, n as int);
        }
        self.groups[gi].choices = choices;
        self.groups[gi].root = None;
        self.groups[gi].logits = false;
        proof {
            assert(self.groups@ =~= old(self).groups@.update(gi as int, self.groups@[gi as int]));
            Self::lemma_replaced(*old(self), *self, gi as int);
        }
    }

    /// Output `ci` of group `gi` stepped `tokens`.
    pub fn stepped(&mut self, gi: usize, ci: usize, tokens: &Vec<u32>)
        requires
            old(self).sound(),
            gi < old(self).groups@.len(),
            ci < old(self).groups@[gi as int].choices@.len(),
        ensures
            final(self).sound(),
            ({
                let g = old(self).groups@[gi as int];
                let h = final(self).groups@[gi as int];
                let d = h.choices@[ci as int];
                &&& final(self).groups@ == old(self).groups@.update(gi as int, h)
                &&& h == (Group { choices: h.choices, ..g })
                &&& h.choices@ == g.choices@.update(ci as int, d)
                &&& d == (Choice { stepped: d.stepped, ..g.choices@[ci as int] })
                &&& d.stepped@ == g.choices@[ci as int].stepped@ + tokens@
            }),
            *final(self) == (Scheduler { groups: final(self).groups, ..*old(self) }),
    {
        let mut all: Vec<u32> = Vec::new();
        std::mem::swap(&mut self.groups[gi].choices[ci].stepped, &mut all);
        let n: usize = tokens.len();
        let mut i: usize = 0;
        let ghost before = all@;
        assert(all@ =~= before + tokens@.take(0));
        while i < n
            invariant
                i <= n,
                n == tokens@.len(),
                all@ == before + tokens@.take(i as int),
            decreases n - i,
        {
            all.push(tokens[i]);
            assert(all@ =~= before + tokens@.take(i + 1));
            i = i + 1;
        }
        assert(all@ =~= before + tokens@);
        self.groups[gi].choices[ci].stepped = all;
        proof {
            let g = old(self).groups@[gi as int];
            let h = self.groups@[gi as int];
            assert(h.choices@ =~= g.choices@.update(ci as int, h.choices@[ci as int]));
            lemma_live_same(g.choices@, h.choices@, g.choices@.len() as int);
            assert(self.groups@ =~= old(self).groups@.update(gi as int, h));
            Self::lemma_replaced(*old(self), *self, gi as int);
        }
    }

    /// Output `ci` of group `gi` goes on with `token`.
    pub fn set_pending(&mut self, gi: usize, ci: usize, token: u32)
        requires
            old(self).sound(),
            gi < old(self).groups@.len(),
            ci < old(self).groups@[gi as int].choices@.len(),
        ensures
            final(self).sound(),
            ({
                let g = old(self).groups@[gi as int];
                let h = final(self).groups@[gi as int];
                &&& final(self).groups@ == old(self).groups@.update(gi as int, h)
                &&& h == (Group { choices: h.choices, ..g })
                &&& h.choices@ == g.choices@.update(
                    ci as int,
                    Choice { pending: Some(token), ..g.choices@[ci as int] },
                )
            }),
            *final(self) == (Scheduler { groups: final(self).groups, ..*old(self) }),
    {
        self.groups[gi].choices[ci].pending = Some(token);
        proof {
            let g = old(self).groups@[gi as int];
            let h = self.groups@[gi as int];
            assert(h.choices@ =~= g.choices@.update(ci as int, h.choices@[ci as int]));
            lemma_live_same(g.choices@, h.choices@, g.choices@.len() as int);
            assert(self.groups@ =~= old(self).groups@.update(gi as int, h));
            Self::lemma_replaced(*old(self), *self, gi as int);
        }
    }
}

proof fn lemma_all_live(choices: Seq<Choice>, n: int)
    requires
        0 <= n <= choices.len(),
        forall|i: int| 0 <= i < n ==> !(#[trigger] choices[i]).finished,
    ensures
        live(choices, n) == n,
    decreases n,
{
    if n > 0 {
        lemma_all_live(choices, n - 1);
        assert(!choices[n - 1].finished);
    }
}

proof fn lemma_live_same(a: Seq<Choice>, b: Seq<Choice>, n: int)
    requires
        0 <= n <= a.len(),
        n <= b.len(),
        forall|i: int| 0 <= i < n ==> a[i].finished == (#[trigger] b[i]).finished,
    ensures
        live(a, n) == live(b, n),
    decreases n,
{
    if n > 0 {
        lemma_live_same(a, b, n - 1);
        assert(a[n - 1].finished == b[n - 1].finished);
    }
}

/// One output changes.
proof fn lemma_live_update(choices: Seq<Choice>, i: int, c: Choice, n: int)
    requires
        0 <= i < choices.len(),
        0 <= n <= choices.len(),
        c.finished,
    ensures
        live(choices.update(i, c), n) <= live(choices, n),
    decreases n,
{
    if n > 0 {
        lemma_live_update(choices, i, c, n - 1);
    }
}

fn copy_ids(v: &Vec<u32>) -> (r: Vec<u32>)
    ensures
        r@ == v@,
{
    let mut r: Vec<u32> = Vec::new();
    let n: usize = v.len();
    let mut i: usize = 0;
    while i < n
        invariant
            i <= n,
            n == v@.len(),
            r@ == v@.take(i as int),
        decreases n - i,
    {
        r.push(v[i]);
        i = i + 1;
    }
    assert(r@ =~= v@);
    r
}

// ---- the next batch -------------------------------------------------------------------------

/// Tokens of one sequence in a batch.
pub struct Slot {
    pub group: usize,
    /// The output that is decoded; none for a prompt.
    pub choice: Option<usize>,
    pub seq: u64,
    pub tokens: Vec<u32>,
    /// Whether the logits behind the last token are wanted.
    pub logits: bool,
}

/// A slot as a value.
#[verifier::ext_equal]
pub struct SlotView {
    pub group: int,
    pub choice: Option<int>,
    pub seq: u64,
    pub tokens: Seq<u32>,
    pub logits: bool,
}

impl View for Slot {
    type V = SlotView;

    open spec fn view(&self) -> SlotView {
        SlotView {
            group: self.group as int,
            choice: match self.choice {
                Some(c) => Some(c as int),
                None => None,
            },
            seq: self.seq,
            tokens: self.tokens@,
            logits: self.logits,
        }
    }
}

pub open spec fn slots(v: Seq<Slot>) -> Seq<SlotView> {
    Seq::new(v.len(), |i: int| v[i]@)
}

/// The next token of each of the first `n` outputs of group `gi` that runs and has one.
pub open spec fn decode_of(choices: Seq<Choice>, gi: int, n: int) -> Seq<SlotView>
    decreases n,
{
    if n <= 0 {
        Seq::empty()
    } else {
        let rest = decode_of(choices, gi, n - 1);
        let c = choices[n - 1];
        match c.pending {
            Some(t) => if c.finished {
                rest
            } else {
                rest.push(
                    SlotView {
                        group: gi,
                        choice: Some(n - 1),
                        seq: c.seq,
                        tokens: seq![t],
                        logits: true,
                    },
                )
            },
            None => rest,
        }
    }
}

/// The decode part of a batch: the outputs of the first `n` groups.
pub open spec fn decode_slots(groups: Seq<Group>, n: int) -> Seq<SlotView>
    decreases n,
{
    if n <= 0 {
        Seq::empty()
    } else {
        decode_slots(groups, n - 1) + decode_of(
            groups[n - 1].choices@,
            n - 1,
            groups[n - 1].choices@.len() as int,
        )
    }
}

/// How many rows are left for prompts beside `decode` outputs: none are held back while nothing
/// is decoded, else no more than a prefill chunk.
pub open spec fn prefill_budget(decode: int, batch_max: int, prefill_chunk: int) -> int {
    let left = batch_max - decode;
    if decode > 0 && prefill_chunk < left { prefill_chunk } else { left }
}

/// Where the prompt of a group that stands at `pos` gets to with `budget` rows: to its end, or to
/// the next snapshot point.
pub open spec fn prefill_to(len: int, pos: int, point: Option<usize>, budget: int) -> int {
    let end = if pos + budget < len { pos + budget } else { len };
    match point {
        Some(p) => if p < end { p as int } else { end },
        None => end,
    }
}

/// The prefill part of a batch so far, and the rows that are left.
#[verifier::ext_equal]
pub struct PrefillView {
    pub slots: Seq<SlotView>,
    pub left: int,
}

/// The prompts of the first `off` groups counted from the cursor, within `budget` rows. Group
/// `i` stands at `pos[i]`, with its next snapshot point at `points[i]`.
pub open spec fn prefill_slots(
    groups: Seq<Group>,
    cursor: int,
    pos: Seq<usize>,
    points: Seq<Option<usize>>,
    budget: int,
    off: int,
) -> PrefillView
    decreases off,
{
    if off <= 0 {
        PrefillView { slots: Seq::empty(), left: budget }
    } else {
        let before = prefill_slots(groups, cursor, pos, points, budget, off - 1);
        let gi = (cursor + off - 1) % (groups.len() as int);
        let g = groups[gi];
        let len = g.ticket.ids@.len() as int;
        match g.root {
            None => before,
            Some(root) => {
                let to = prefill_to(len, pos[gi] as int, points[gi], before.left);
                if g.restoring || to <= pos[gi] {
                    before
                } else {
                    PrefillView {
                        slots: before.slots.push(
                            SlotView {
                                group: gi,
                                choice: None,
                                seq: root,
                                tokens: g.ticket.ids@.subrange(pos[gi] as int, to),
                                logits: to == len || points[gi] == Some(to as usize),
                            },
                        ),
                        left: before.left - (to - pos[gi]),
                    }
                }
            },
        }
    }
}

/// The rows of the first `n` slots.
pub open spec fn rows(v: Seq<SlotView>, n: int) -> int
    decreases n,
{
    if n <= 0 { 0 } else { rows(v, n - 1) + v[n - 1].tokens.len() }
}

impl Scheduler {
    /// The next batch.
    pub open spec fn batch(
        self,
        pos: Seq<usize>,
        points: Seq<Option<usize>>,
        batch_max: int,
        prefill_chunk: int,
    ) -> Seq<SlotView> {
        let n = self.groups@.len() as int;
        let decode = decode_slots(self.groups@, n);
        let budget = prefill_budget(decode.len() as int, batch_max, prefill_chunk);
        decode + prefill_slots(self.groups@, self.cursor as int, pos, points, budget, n).slots
    }

    /// The decode part of the next batch.
    fn decode(&self) -> (out: Vec<Slot>)
        ensures
            slots(out@) == decode_slots(self.groups@, self.groups@.len() as int),
    {
        let mut out: Vec<Slot> = Vec::new();
        let n: usize = self.groups.len();
        let mut i: usize = 0;
        assert(slots(out@) =~= Seq::<SlotView>::empty());
        while i < n
            invariant
                i <= n,
                n == self.groups@.len(),
                slots(out@) == decode_slots(self.groups@, i as int),
            decreases n - i,
        {
            let g: &Group = &self.groups[i];
            let m: usize = g.choices.len();
            let mut j: usize = 0;
            let ghost base = slots(out@);
            assert(slots(out@) =~= base + decode_of(g.choices@, i as int, 0));
            while j < m
                invariant
                    j <= m,
                    m == g.choices@.len(),
                    slots(out@) == base + decode_of(g.choices@, i as int, j as int),
                decreases m - j,
            {
                let c: &Choice = &g.choices[j];
                if !c.finished {
                    match c.pending {
                        Some(t) => {
                            let ghost old_out = out@;
                            let mut tokens: Vec<u32> = Vec::new();
                            tokens.push(t);
                            assert(tokens@ =~= seq![t]);
                            out.push(
                                Slot {
                                    group: i,
                                    choice: Some(j),
                                    seq: c.seq,
                                    tokens,
                                    logits: true,
                                },
                            );
                            assert(slots(out@) =~= slots(old_out).push(out@.last()@));
                            assert(slots(out@) =~= base + decode_of(g.choices@, i as int, j + 1));
                        },
                        None => {},
                    }
                }
                j = j + 1;
            }
            i = i + 1;
        }
        out
    }

    /// The next batch: first the next token of every running output, then, in turn, as many
    /// prompt tokens as fit. Group `i` stands at `pos[i]`, with its next snapshot point at
    /// `points[i]`. The turn then passes on.
    pub fn plan(
        &mut self,
        pos: &Vec<usize>,
        points: &Vec<Option<usize>>,
        batch_max: usize,
        prefill_chunk: usize,
    ) -> (out: Vec<Slot>)
        requires
            pos@.len() == old(self).groups@.len(),
            points@.len() == old(self).groups@.len(),
            decode_slots(old(self).groups@, old(self).groups@.len() as int).len() <= batch_max,
        ensures
            slots(out@) == old(self).batch(pos@, points@, batch_max as int, prefill_chunk as int),
            final(self).cursor == if old(self).groups@.len() == 0 {
                old(self).cursor as int
            } else {
                (old(self).cursor + 1) % (old(self).groups@.len() as int)
            },
            *final(self) == (Scheduler { cursor: final(self).cursor, ..*old(self) }),
    {
        let mut out: Vec<Slot> = self.decode();
        let d: usize = out.len();
        let left: usize = batch_max - d;
        let mut budget: usize = if d > 0 && prefill_chunk < left { prefill_chunk } else { left };
        let n: usize = self.groups.len();
        let ghost base = slots(out@);
        let ghost all = budget as int;
        if n > 0 {
            let start: usize = self.cursor % n;
            let mut off: usize = 0;
            assert(slots(out@) =~= base + prefill_slots(
                self.groups@,
                self.cursor as int,
                pos@,
                points@,
                all,
                0,
            ).slots);
            while off < n
                invariant
                    off <= n,
                    n == self.groups@.len(),
                    n > 0,
                    n == pos@.len(),
                    n == points@.len(),
                    start == self.cursor as int % (n as int),
                    *self == *old(self),
                    slots(out@) == base + prefill_slots(
                        self.groups@,
                        self.cursor as int,
                        pos@,
                        points@,
                        all,
                        off as int,
                    ).slots,
                    budget == prefill_slots(
                        self.groups@,
                        self.cursor as int,
                        pos@,
                        points@,
                        all,
                        off as int,
                    ).left,
                decreases n - off,
            {
                let gi: usize = if start < n - off { start + off } else { start - (n - off) };
                proof {
                    lemma_turn(self.cursor as int, off as int, n as int);
                }
                let ghost before = prefill_slots(
                    self.groups@,
                    self.cursor as int,
                    pos@,
                    points@,
                    all,
                    off as int,
                );
                let g: &Group = &self.groups[gi];
                let len: usize = g.ticket.ids.len();
                let at: usize = pos[gi];
                match g.root {
                    None => {},
                    Some(root) => {
                        if !g.restoring {
                            let mut to: usize = if at < len && budget < len - at {
                                at + budget
                            } else {
                                len
                            };
                            match points[gi] {
                                Some(p) => {
                                    if p < to {
                                        to = p;
                                    }
                                },
                                None => {},
                            }
                            if to > at {
                                assert(to == prefill_to(
                                    len as int,
                                    at as int,
                                    points@[gi as int],
                                    budget as int,
                                ));
                                let mut tokens: Vec<u32> = Vec::new();
                                let mut k: usize = at;
                                while k < to
                                    invariant
                                        at <= k <= to,
                                        to <= g.ticket.ids@.len(),
                                        tokens@ == g.ticket.ids@.subrange(at as int, k as int),
                                    decreases to - k,
                                {
                                    tokens.push(g.ticket.ids[k]);
                                    k = k + 1;
                                }
                                let at_point: bool = match points[gi] {
                                    Some(p) => p == to,
                                    None => false,
                                };
                                let ghost old_out = out@;
                                out.push(
                                    Slot {
                                        group: gi,
                                        choice: None,
                                        seq: root,
                                        tokens,
                                        logits: to == len || at_point,
                                    },
                                );
                                assert(slots(out@) =~= slots(old_out).push(out@.last()@));
                                budget = budget - (to - at);
                            }
                        }
                    },
                }
                assert(slots(out@) =~= base + prefill_slots(
                    self.groups@,
                    self.cursor as int,
                    pos@,
                    points@,
                    all,
                    off + 1,
                ).slots);
                off = off + 1;
            }
            proof {
                lemma_turn(self.cursor as int, 1, n as int);
            }
            self.cursor = if start + 1 < n { start + 1 } else { 0 };
        }
        assert(slots(out@) =~= old(self).batch(pos@, points@, batch_max as int, prefill_chunk as int));
        out
    }
}

/// What the scheduler does when no batch was planned, or after one.
#[derive(Clone, Copy, Debug, PartialEq, Eq, Structural)]
pub enum Next {
    /// Run the batch.
    Run,
    /// Nobody is left and nobody will come.
    Quit,
    /// Nobody is there: wait until somebody comes.
    Block,
    /// Somebody waits for others or for the cache: look again in a moment.
    Poll,
}

impl Scheduler {
    pub open spec fn next_step(self, planned: bool, closed: bool) -> Next {
        if planned {
            Next::Run
        } else if self.groups@.len() > 0 || self.waiting@.len() > 0 {
            Next::Poll
        } else if closed {
            Next::Quit
        } else {
            Next::Block
        }
    }

    /// What is done next, where `planned` says whether the batch holds anything and `closed`
    /// whether no more requests will come.
    pub fn next(&self, planned: bool, closed: bool) -> (n: Next)
        ensures
            n == self.next_step(planned, closed),
    {
        if planned {
            Next::Run
        } else if self.groups.len() > 0 || self.waiting.len() > 0 {
            Next::Poll
        } else if closed {
            Next::Quit
        } else {
            Next::Block
        }
    }

    /// The pages that the idle sequence holds.
    pub fn idle_pages(&self) -> (n: usize)
        ensures
            n == match self.idle {
                Some(i) => (i.ids@.len() + 63) / 64,
                None => 0,
            },
    {
        match &self.idle {
            Some(i) => {
                let len: usize = i.ids.len();
                if len % 64 == 0 { len / 64 } else { len / 64 + 1 }
            },
            None => 0,
        }
    }
}

/// The scheduler never ends while a request waits or runs.
pub proof fn law_no_request_is_left_behind(s: Scheduler, planned: bool, closed: bool)
    ensures
        s.next_step(planned, closed) is Quit ==> s.groups@.len() == 0 && s.waiting@.len() == 0 && closed,
{
}

/// The rows of those of the first `n` slots that are decoded, or of those that are not.
pub open spec fn rows_of(v: Seq<SlotView>, decoded: bool, n: int) -> int
    decreases n,
{
    if n <= 0 {
        0
    } else if (v[n - 1].choice is Some) == decoded {
        rows_of(v, decoded, n - 1) + v[n - 1].tokens.len()
    } else {
        rows_of(v, decoded, n - 1)
    }
}

/// The rows of a batch: those that are decoded, and those of prompts.
pub fn count_rows(v: &Vec<Slot>) -> (r: (u128, u128))
    requires
        v@.len() <= 0xffff_ffff_ffff,
    ensures
        r.0 == rows_of(slots(v@), true, v@.len() as int),
        r.1 == rows_of(slots(v@), false, v@.len() as int),
{
    let n: usize = v.len();
    let mut a: u128 = 0;
    let mut b: u128 = 0;
    let mut i: usize = 0;
    while i < n
        invariant
            n == v@.len(),
            n <= 0xffff_ffff_ffff,
            i <= n,
            a == rows_of(slots(v@), true, i as int),
            b == rows_of(slots(v@), false, i as int),
            a <= i * 0xffff_ffff_ffff_ffff,
            b <= i * 0xffff_ffff_ffff_ffff,
        decreases n - i,
    {
        let len: u128 = v[i].tokens.len() as u128;
        assert(slots(v@)[i as int] == v@[i as int]@);
        if v[i].choice.is_some() {
            a = a + len;
        } else {
            b = b + len;
        }
        i = i + 1;
    }
    (a, b)
}

/// A turn counted from the cursor.
proof fn lemma_turn(cursor: int, off: int, n: int)
    requires
        0 <= cursor,
        0 <= off <= n,
        0 < n,
    ensures
        (cursor + off) % n == if cursor % n + off < n { cursor % n + off } else { cursor % n + off - n },
        0 <= cursor % n < n,
{
    vstd::arithmetic::div_mod::lemma_fundamental_div_mod(cursor, n);
    let q = cursor / n;
    let r = cursor % n;
    assert(n * q == q * n) by (nonlinear_arith);
    if r + off < n {
        vstd::arithmetic::div_mod::lemma_fundamental_div_mod_converse(cursor + off, n, q, r + off);
    } else {
        assert((q + 1) * n == q * n + n) by (nonlinear_arith);
        if r + off - n < n {
            vstd::arithmetic::div_mod::lemma_fundamental_div_mod_converse(
                cursor + off,
                n,
                q + 1,
                r + off - n,
            );
        }
    }
}

proof fn lemma_rows_concat(a: Seq<SlotView>, b: Seq<SlotView>, n: int)
    requires
        0 <= n <= b.len(),
    ensures
        rows(a + b, a.len() + n) == rows(a, a.len() as int) + rows(b, n),
    decreases n,
{
    if n > 0 {
        lemma_rows_concat(a, b, n - 1);
        assert((a + b)[a.len() + n - 1] == b[n - 1]);
    } else {
        lemma_rows_same(a, a + b, a.len() as int);
    }
}

proof fn lemma_rows_same(a: Seq<SlotView>, b: Seq<SlotView>, n: int)
    requires
        0 <= n <= a.len(),
        n <= b.len(),
        forall|i: int| 0 <= i < n ==> a[i] == #[trigger] b[i],
    ensures
        rows(a, n) == rows(b, n),
    decreases n,
{
    if n > 0 {
        lemma_rows_same(a, b, n - 1);
        assert(a[n - 1] == b[n - 1]);
    }
}

proof fn lemma_single_rows(v: Seq<SlotView>, n: int)
    requires
        0 <= n <= v.len(),
        forall|i: int| 0 <= i < v.len() ==> (#[trigger] v[i]).tokens.len() == 1,
    ensures
        rows(v, n) == n,
    decreases n,
{
    if n > 0 {
        lemma_single_rows(v, n - 1);
        assert(v[n - 1].tokens.len() == 1);
    }
}

proof fn lemma_decode_of(choices: Seq<Choice>, gi: int, n: int)
    requires
        0 <= n <= choices.len(),
    ensures
        decode_of(choices, gi, n).len() <= live(choices, n),
        forall|i: int|
            0 <= i < decode_of(choices, gi, n).len() ==> (#[trigger] decode_of(choices, gi, n)[i]).tokens.len()
                == 1,
        forall|c: int|
            0 <= c < n && !(#[trigger] choices[c]).finished && choices[c].pending is Some
                ==> decode_of(choices, gi, n).contains(
                SlotView {
                    group: gi,
                    choice: Some(c),
                    seq: choices[c].seq,
                    tokens: seq![choices[c].pending->0],
                    logits: true,
                },
            ),
    decreases n,
{
    if n > 0 {
        lemma_decode_of(choices, gi, n - 1);
        let rest = decode_of(choices, gi, n - 1);
        let all = decode_of(choices, gi, n);
        assert forall|c: int|
            0 <= c < n && !(#[trigger] choices[c]).finished && choices[c].pending is Some implies all.contains(
            SlotView {
                group: gi,
                choice: Some(c),
                seq: choices[c].seq,
                tokens: seq![choices[c].pending->0],
                logits: true,
            },
        ) by {
            let s = SlotView {
                group: gi,
                choice: Some(c),
                seq: choices[c].seq,
                tokens: seq![choices[c].pending->0],
                logits: true,
            };
            if c < n - 1 {
                let j = choose|j: int| 0 <= j < rest.len() && rest[j] == s;
                assert(all[j] == s);
            } else {
                assert(all[all.len() - 1] == s);
            }
        }
    }
}

proof fn lemma_decode_slots(groups: Seq<Group>, n: int)
    requires
        0 <= n <= groups.len(),
        forall|i: int| 0 <= i < groups.len() ==> (#[trigger] groups[i]).sound(),
    ensures
        decode_slots(groups, n).len() <= sequences_used(groups, n),
        forall|i: int|
            0 <= i < decode_slots(groups, n).len() ==> (#[trigger] decode_slots(groups, n)[i]).tokens.len()
                == 1,
    decreases n,
{
    if n > 0 {
        lemma_decode_slots(groups, n - 1);
        let g = groups[n - 1];
        lemma_decode_of(g.choices@, n - 1, g.choices@.len() as int);
        assert(g.sound());
    }
}

/// The outputs that are decoded together never outnumber the sequences there are.
pub proof fn law_decode_fits_the_sequences(s: Scheduler)
    requires
        s.sound(),
    ensures
        decode_slots(s.groups@, s.groups@.len() as int).len() <= s.sequence_capacity,
{
    lemma_decode_slots(s.groups@, s.groups@.len() as int);
}

proof fn lemma_prefill_slots(
    groups: Seq<Group>,
    cursor: int,
    pos: Seq<usize>,
    points: Seq<Option<usize>>,
    budget: int,
    off: int,
)
    requires
        groups.len() > 0,
        0 <= off,
        0 <= budget,
        0 <= cursor,
    ensures
        ({
            let p = prefill_slots(groups, cursor, pos, points, budget, off);
            0 <= p.left && rows(p.slots, p.slots.len() as int) == budget - p.left
        }),
    decreases off,
{
    if off > 0 {
        lemma_prefill_slots(groups, cursor, pos, points, budget, off - 1);
        let before = prefill_slots(groups, cursor, pos, points, budget, off - 1);
        let p = prefill_slots(groups, cursor, pos, points, budget, off);
        if p.slots.len() > before.slots.len() {
            lemma_rows_same(before.slots, p.slots, before.slots.len() as int);
        }
    }
}

/// A batch never holds more rows than the model takes, and beside running outputs the prompts get
/// no more than a prefill chunk.
pub proof fn law_batch_within_limits(
    s: Scheduler,
    pos: Seq<usize>,
    points: Seq<Option<usize>>,
    batch_max: int,
    prefill_chunk: int,
)
    requires
        s.sound(),
        decode_slots(s.groups@, s.groups@.len() as int).len() <= batch_max,
        0 <= prefill_chunk,
    ensures
        ({
            let b = s.batch(pos, points, batch_max, prefill_chunk);
            let d = decode_slots(s.groups@, s.groups@.len() as int).len();
            &&& rows(b, b.len() as int) <= batch_max
            &&& d > 0 ==> rows(b, b.len() as int) <= d + prefill_chunk
        }),
{
    let n = s.groups@.len() as int;
    let d = decode_slots(s.groups@, n);
    let budget = prefill_budget(d.len() as int, batch_max, prefill_chunk);
    let p = prefill_slots(s.groups@, s.cursor as int, pos, points, budget, n);
    lemma_decode_slots(s.groups@, n);
    lemma_single_rows(d, d.len() as int);
    if n > 0 {
        lemma_prefill_slots(s.groups@, s.cursor as int, pos, points, budget, n);
    }
    lemma_rows_concat(d, p.slots, p.slots.len() as int);
}

proof fn lemma_group_decodes(groups: Seq<Group>, n: int, gi: int, s: SlotView)
    requires
        0 <= gi < n <= groups.len(),
        decode_of(groups[gi].choices@, gi, groups[gi].choices@.len() as int).contains(s),
    ensures
        decode_slots(groups, n).contains(s),
    decreases n,
{
    let rest = decode_slots(groups, n - 1);
    let last = decode_of(groups[n - 1].choices@, n - 1, groups[n - 1].choices@.len() as int);
    if gi < n - 1 {
        lemma_group_decodes(groups, n - 1, gi, s);
        let j = choose|j: int| 0 <= j < rest.len() && rest[j] == s;
        assert((rest + last)[j] == s);
    } else {
        let j = choose|j: int| 0 <= j < last.len() && last[j] == s;
        assert((rest + last)[rest.len() + j] == s);
    }
}

/// Every output that runs and has a next token is in every batch: neither a prompt nor a restore
/// stalls decoding.
pub proof fn law_every_running_output_is_decoded(
    s: Scheduler,
    pos: Seq<usize>,
    points: Seq<Option<usize>>,
    batch_max: int,
    prefill_chunk: int,
    gi: int,
    ci: int,
)
    requires
        0 <= gi < s.groups@.len(),
        0 <= ci < s.groups@[gi].choices@.len(),
        !s.groups@[gi].choices@[ci].finished,
        s.groups@[gi].choices@[ci].pending is Some,
    ensures
        s.batch(pos, points, batch_max, prefill_chunk).contains(
            SlotView {
                group: gi,
                choice: Some(ci),
                seq: s.groups@[gi].choices@[ci].seq,
                tokens: seq![s.groups@[gi].choices@[ci].pending->0],
                logits: true,
            },
        ),
{
    let c = s.groups@[gi].choices@;
    lemma_decode_of(c, gi, c.len() as int);
    let slot = SlotView {
        group: gi,
        choice: Some(ci),
        seq: c[ci].seq,
        tokens: seq![c[ci].pending->0],
        logits: true,
    };
    let n = s.groups@.len() as int;
    lemma_group_decodes(s.groups@, n, gi, slot);
    let d = decode_slots(s.groups@, n);
    let j = choose|j: int| 0 <= j < d.len() && d[j] == slot;
    assert(s.batch(pos, points, batch_max, prefill_chunk)[j] == slot);
}

proof fn lemma_first_turn_stays(
    groups: Seq<Group>,
    cursor: int,
    pos: Seq<usize>,
    points: Seq<Option<usize>>,
    budget: int,
    off: int,
)
    requires
        off >= 1,
    ensures
        prefill_slots(groups, cursor, pos, points, budget, 1).slots.len() <= prefill_slots(
            groups,
            cursor,
            pos,
            points,
            budget,
            off,
        ).slots.len(),
        forall|i: int|
            0 <= i < prefill_slots(groups, cursor, pos, points, budget, 1).slots.len()
                ==> prefill_slots(groups, cursor, pos, points, budget, 1).slots[i]
                == #[trigger] prefill_slots(groups, cursor, pos, points, budget, off).slots[i],
    decreases off,
{
    if off > 1 {
        lemma_first_turn_stays(groups, cursor, pos, points, budget, off - 1);
    }
}

/// The prompt whose turn it is gets rows whenever there are any left beside the running outputs,
/// so that every prompt goes on as the turn passes round.
pub proof fn law_prompt_at_its_turn_goes_on(
    s: Scheduler,
    pos: Seq<usize>,
    points: Seq<Option<usize>>,
    batch_max: int,
    prefill_chunk: int,
)
    requires
        s.groups@.len() > 0,
        prefill_budget(
            decode_slots(s.groups@, s.groups@.len() as int).len() as int,
            batch_max,
            prefill_chunk,
        ) > 0,
        ({
            let gi = s.cursor as int % (s.groups@.len() as int);
            let g = s.groups@[gi];
            &&& g.root is Some
            &&& !g.restoring
            &&& pos[gi] < g.ticket.ids@.len()
            &&& points[gi] matches Some(p) ==> p > pos[gi]
        }),
    ensures
        exists|i: int|
            0 <= i < s.batch(pos, points, batch_max, prefill_chunk).len() && (#[trigger] s.batch(
                pos,
                points,
                batch_max,
                prefill_chunk,
            )[i]).choice is None && s.batch(pos, points, batch_max, prefill_chunk)[i].group
                == s.cursor as int % (s.groups@.len() as int) && s.batch(
                pos,
                points,
                batch_max,
                prefill_chunk,
            )[i].tokens.len() > 0,
{
    let n = s.groups@.len() as int;
    let d = decode_slots(s.groups@, n);
    let budget = prefill_budget(d.len() as int, batch_max, prefill_chunk);
    reveal_with_fuel(prefill_slots, 2);
    let one = prefill_slots(s.groups@, s.cursor as int, pos, points, budget, 1);
    assert(one.slots.len() == 1);
    lemma_first_turn_stays(s.groups@, s.cursor as int, pos, points, budget, n);
    let all = prefill_slots(s.groups@, s.cursor as int, pos, points, budget, n);
    assert(all.slots[0] == one.slots[0]);
    assert(s.batch(pos, points, batch_max, prefill_chunk)[d.len() as int] == one.slots[0]);
}

/// A request that may run fits: with it, pages and sequences stay within their limits.
pub proof fn law_admitted_request_fits(s: Scheduler)
    requires
        s.sound(),
        s.verdict() is Run,
    ensures
        s.waiting@.len() > 0,
        s.waiting@[0].counts(),
        s.pages() + s.waiting@[0].pages() <= s.page_capacity,
        s.sequences() + s.waiting@[0].n <= s.sequence_capacity,
        s.verdict() == Admission::Run(s.waiting@[0].pages() as usize),
{
}

/// The request in front runs where it fits beside what runs, waits where it would fit alone, and is
/// refused where it never can; without one there is nothing to do.
pub proof fn law_verdict_on_the_front(s: Scheduler)
    ensures
        s.verdict() is Idle <==> s.waiting@.len() == 0,
        s.waiting@.len() > 0 ==> ({
            let t = s.waiting@[0];
            let ever = t.counts() && t.pages() <= s.page_capacity && t.n <= s.sequence_capacity;
            let now = s.pages() + t.pages() <= s.page_capacity && s.sequences() + t.n <= s.sequence_capacity;
            &&& s.verdict() is Refuse <==> !ever
            &&& s.verdict() is Run <==> ever && now
            &&& s.verdict() is Wait <==> ever && !now
        }),
{
}

/// Only running outputs are decoded: each with the token that it has to step next, in its own
/// sequence.
pub proof fn law_only_running_outputs_are_decoded(groups: Seq<Group>, n: int, i: int)
    requires
        0 <= n <= groups.len(),
        0 <= i < decode_slots(groups, n).len(),
    ensures
        ({
            let s = decode_slots(groups, n)[i];
            &&& 0 <= s.group < n
            &&& s.logits
            &&& s.choice matches Some(c) && 0 <= c < groups[s.group].choices@.len()
                && !groups[s.group].choices@[c].finished && groups[s.group].choices@[c].pending is Some && s.seq
                == groups[s.group].choices@[c].seq && s.tokens == seq![
                groups[s.group].choices@[c].pending->0,
            ]
        }),
    decreases n,
{
    if n > 0 {
        let before = decode_slots(groups, n - 1);
        let c = groups[n - 1].choices@;
        if i < before.len() {
            law_only_running_outputs_are_decoded(groups, n - 1, i);
        } else {
            lemma_decoded_choice(c, n - 1, c.len() as int, i - before.len());
        }
    }
}

proof fn lemma_decoded_choice(choices: Seq<Choice>, gi: int, n: int, i: int)
    requires
        0 <= n <= choices.len(),
        0 <= i < decode_of(choices, gi, n).len(),
    ensures
        ({
            let s = decode_of(choices, gi, n)[i];
            &&& s.group == gi
            &&& s.logits
            &&& s.choice matches Some(c) && 0 <= c < choices.len() && !choices[c].finished && choices[c].pending
                is Some && s.seq == choices[c].seq && s.tokens == seq![choices[c].pending->0]
        }),
    decreases n,
{
    if n > 0 && i < decode_of(choices, gi, n - 1).len() {
        lemma_decoded_choice(choices, gi, n - 1, i);
    }
}

/// What a prompt is fed are its own tokens from where it stands on, in its own sequence, none beyond
/// its next point; logits are asked for at that point and at its end. A prompt that is being restored
/// gets nothing.
pub proof fn law_prompts_are_fed_their_own_tokens(
    groups: Seq<Group>,
    cursor: int,
    pos: Seq<usize>,
    points: Seq<Option<usize>>,
    budget: int,
    off: int,
    i: int,
)
    requires
        groups.len() > 0,
        0 <= cursor,
        0 <= i < prefill_slots(groups, cursor, pos, points, budget, off).slots.len(),
        forall|g: int| 0 <= g < groups.len() ==> 0 <= pos[g] <= (#[trigger] groups[g]).ticket.ids@.len(),
    ensures
        ({
            let s = prefill_slots(groups, cursor, pos, points, budget, off).slots[i];
            let g = groups[s.group];
            let to = pos[s.group] + s.tokens.len();
            &&& 0 <= s.group < groups.len()
            &&& s.choice is None
            &&& g.root == Some(s.seq)
            &&& !g.restoring
            &&& s.tokens.len() > 0
            &&& to <= g.ticket.ids@.len()
            &&& s.tokens == g.ticket.ids@.subrange(pos[s.group] as int, to)
            &&& points[s.group] matches Some(p) ==> to <= p
            &&& s.logits <==> to == g.ticket.ids@.len() || (points[s.group] matches Some(p) && to == p)
        }),
    decreases off,
{
    if off > 0 {
        let before = prefill_slots(groups, cursor, pos, points, budget, off - 1);
        if i < before.slots.len() {
            law_prompts_are_fed_their_own_tokens(groups, cursor, pos, points, budget, off - 1, i);
        } else {
            let gi = (cursor + off - 1) % (groups.len() as int);
            assert(0 <= gi < groups.len());
            let g = groups[gi];
            assert(0 <= pos[gi] <= g.ticket.ids@.len());
        }
    }
}

/// Beside running outputs the prompts share a chunk, and all the rows that are left where none runs.
pub proof fn law_rows_for_prompts(decode: int, batch_max: int, chunk: int)
    requires
        0 <= decode <= batch_max,
        0 <= chunk,
    ensures
        decode == 0 ==> prefill_budget(decode, batch_max, chunk) == batch_max,
        decode > 0 && chunk <= batch_max - decode ==> prefill_budget(decode, batch_max, chunk) == chunk,
        decode > 0 && chunk > batch_max - decode ==> prefill_budget(decode, batch_max, chunk) == batch_max
            - decode,
{
}

/// A step of a prompt goes as far as the rows, its tokens and its next point let it.
pub proof fn law_step_of_a_prompt(len: int, pos: int, point: Option<usize>, budget: int)
    requires
        0 <= pos <= len,
        0 <= budget,
        point matches Some(p) ==> p > pos,
    ensures
        ({
            let to = prefill_to(len, pos, point, budget);
            &&& pos <= to <= len && to <= pos + budget
            &&& point matches Some(p) ==> to <= p
            &&& to == len || to == pos + budget || point == Some(to as usize)
        }),
{
}

/// A batch that was planned runs; without one the scheduler looks again as long as there is a request,
/// and ends only once none can come.
pub proof fn law_what_comes_next(s: Scheduler, planned: bool, closed: bool)
    ensures
        planned ==> s.next_step(planned, closed) is Run,
        !planned && (s.groups@.len() > 0 || s.waiting@.len() > 0) ==> s.next_step(planned, closed) is Poll,
        !planned && s.groups@.len() == 0 && s.waiting@.len() == 0 && closed ==> s.next_step(planned, closed)
            is Quit,
        !planned && s.groups@.len() == 0 && s.waiting@.len() == 0 && !closed ==> s.next_step(planned, closed)
            is Block,
{
}

/// The outputs of a request that run are those not finished.
pub proof fn law_running_outputs(choices: Seq<Choice>, c: Choice)
    ensures
        live(choices.push(c), choices.len() as int + 1) == live(choices, choices.len() as int) + if c.finished {
            0int
        } else {
            1int
        },
        running_sequences(choices.push(c), choices.len() as int + 1) == if c.finished {
            running_sequences(choices, choices.len() as int)
        } else {
            running_sequences(choices, choices.len() as int).push(c.seq)
        },
        live(Seq::empty(), 0) == 0,
{
    lemma_live_of_more(choices, c, choices.len() as int);
    assert(choices.push(c)[choices.len() as int] == c);
}

proof fn lemma_live_of_more(choices: Seq<Choice>, c: Choice, n: int)
    requires
        n <= choices.len(),
    ensures
        live(choices.push(c), n) == live(choices, n),
        running_sequences(choices.push(c), n) == running_sequences(choices, n),
    decreases n,
{
    if n > 0 {
        lemma_live_of_more(choices, c, n - 1);
        assert(choices.push(c)[n - 1] == choices[n - 1]);
    }
}

/// A group is active while its prompt is or one of its outputs runs; it holds a sequence for each of
/// the outputs to come, or for those that run.
pub proof fn law_what_a_group_holds(g: Group)
    ensures
        g.active() <==> g.root is Some || g.running() > 0,
        g.root is Some ==> g.sequences() == g.ticket.n && g.due() == g.credits,
        g.root is None ==> g.sequences() == g.running(),
        g.root is None ==> g.due() == reserved_pages(
            g.ticket.ids@.len() as int,
            g.ticket.max_tokens as int,
            g.running(),
        ),
        held_sequences(g) == (match g.root {
            Some(s) => seq![s],
            None => Seq::empty(),
        }) + running_sequences(g.choices@, g.choices@.len() as int),
{
}

/// Pages and sequences are used by all groups together.
pub proof fn law_use_is_of_all_groups(groups: Seq<Group>, g: Group)
    ensures
        pages_used(groups.push(g), groups.len() as int + 1) == pages_used(groups, groups.len() as int)
            + g.credits,
        sequences_used(groups.push(g), groups.len() as int + 1) == sequences_used(groups, groups.len() as int)
            + g.sequences(),
        pages_used(Seq::empty(), 0) == 0 && sequences_used(Seq::empty(), 0) == 0,
{
    lemma_use_of_more(groups, g, groups.len() as int);
    assert(groups.push(g)[groups.len() as int] == g);
}

proof fn lemma_use_of_more(groups: Seq<Group>, g: Group, n: int)
    requires
        n <= groups.len(),
    ensures
        pages_used(groups.push(g), n) == pages_used(groups, n),
        sequences_used(groups.push(g), n) == sequences_used(groups, n),
    decreases n,
{
    if n > 0 {
        lemma_use_of_more(groups, g, n - 1);
        assert(groups.push(g)[n - 1] == groups[n - 1]);
    }
}

/// Waiting requests are told apart by their flags, each kept in its order.
pub proof fn law_flagged_requests(t: Seq<Ticket>, flags: Seq<bool>, flag: bool, n: int)
    requires
        0 <= n < t.len(),
        n < flags.len(),
    ensures
        flags[n] == flag ==> flagged(t, flags, flag, n + 1) == flagged(t, flags, flag, n).push(t[n]),
        flags[n] != flag ==> flagged(t, flags, flag, n + 1) == flagged(t, flags, flag, n),
        flagged(t, flags, flag, 0) == Seq::<Ticket>::empty(),
{
}

/// Groups that are done leave, and the others stay in their order.
pub proof fn law_active_groups_stay(g: Seq<Group>, n: int)
    requires
        0 <= n < g.len(),
    ensures
        g[n].root is Some || g[n].running() > 0 ==> active_groups(g, n + 1) == active_groups(g, n).push(g[n]),
        g[n].root is None && g[n].running() <= 0 ==> active_groups(g, n + 1) == active_groups(g, n),
        active_groups(g, 0) == Seq::<Group>::empty(),
{
}

/// The rows of a batch are those of its slots, decoded and of prompts.
pub proof fn law_rows_of_a_batch(v: Seq<SlotView>, n: int)
    requires
        0 <= n <= v.len(),
    ensures
        rows(v, n) == rows_of(v, true, n) + rows_of(v, false, n),
        n < v.len() ==> rows(v, n + 1) == rows(v, n) + v[n].tokens.len(),
        n < v.len() && v[n].choice is Some ==> rows_of(v, true, n + 1) == rows_of(v, true, n)
            + v[n].tokens.len() && rows_of(v, false, n + 1) == rows_of(v, false, n),
    decreases n,
{
    if n > 0 {
        law_rows_of_a_batch(v, n - 1);
    }
}

} // verus!
