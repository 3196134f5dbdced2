//! The download queue: how many downloads run at once.
//!
//! Downloads take a ticket and enter in the order of their tickets, as long as
//! fewer than the limit are running. A download cancelled while it waits gives
//! its ticket up, and the queue steps over it.

use crate::num;
use vstd::prelude::*;

verus! {

/// What a [`Queue`] holds.
pub struct QueueState {
    /// How many downloads may run at once.
    pub limit: int,
    /// How many run.
    pub active: int,
    /// The next ticket to hand out.
    pub next: int,
    /// The lowest ticket still waiting, or `next` if none is: only this one
    /// can enter.
    pub head: int,
    /// Tickets behind the head that were given up.
    pub gone: Set<u64>,
}

/// The first ticket from `from` on that was not given up.
pub open spec fn skip_gone(from: int, next: int, gone: Set<u64>) -> int
    decreases next - from,
{
    if from < next && gone.contains(from as u64) { skip_gone(from + 1, next, gone) } else { from }
}

/// How many tickets from `head` up to `ticket` were not given up.
pub open spec fn ahead(head: int, ticket: int, gone: Set<u64>) -> int
    decreases ticket - head,
{
    if ticket <= head {
        0
    } else {
        ahead(head, ticket - 1, gone) + if gone.contains((ticket - 1) as u64) { 0int } else { 1 }
    }
}

impl QueueState {
    /// The limit is at least one; the head is a ticket that waits, or the next
    /// one; what was given up lies behind the head.
    pub open spec fn well_formed(self) -> bool {
        &&& 1 <= self.limit <= u64::MAX
        &&& 0 <= self.active <= u64::MAX
        &&& 0 <= self.head <= self.next <= u64::MAX
        &&& forall|t: u64| #[trigger] self.gone.contains(t) ==> self.head < t < self.next
    }

    /// Whether `t` was handed out and still waits for its turn.
    pub open spec fn waits(self, t: int) -> bool {
        self.head <= t < self.next && !self.gone.contains(t as u64)
    }

    /// The head moves on: past the current one, and past those given up.
    pub open spec fn advance(self) -> QueueState {
        let head = skip_gone(self.head + 1, self.next, self.gone);
        QueueState { head, gone: self.gone.filter(|t: u64| t > head), ..self }
    }

    /// After a new limit was set.
    pub open spec fn limited(self, n: int) -> QueueState {
        QueueState { limit: num::max_of(n, 1), ..self }
    }

    /// After a ticket was handed out.
    pub open spec fn ticketed(self) -> QueueState {
        QueueState { next: self.next + 1, ..self }
    }

    /// After ticket `t` was given up.
    pub open spec fn without(self, t: u64) -> QueueState {
        if t == self.head {
            self.advance()
        } else if t > self.head {
            QueueState { gone: self.gone.insert(t), ..self }
        } else {
            self
        }
    }

    /// Whether ticket `t` may enter now.
    pub open spec fn admits(self, t: int) -> bool {
        t == self.head && self.active < self.limit
    }

    /// After the head entered.
    pub open spec fn entered(self) -> QueueState {
        QueueState { active: self.active + 1, ..self.advance() }
    }

    /// After a running download ended.
    pub open spec fn left(self) -> QueueState {
        QueueState { active: self.active - 1, ..self }
    }
}

/// The queue.
#[derive(Debug)]
pub struct Queue {
    limit: u64,
    active: u64,
    next: u64,
    head: u64,
    gone: Vec<u64>,
}

/// Permission to download, to be handed back to [`Queue::leave`].
#[derive(Debug)]
pub struct Slot {
    ticket: u64,
}

impl Slot {
    /// The ticket it was given for.
    pub closed spec fn ticket_spec(self) -> u64 {
        self.ticket
    }

    /// The ticket it was given for.
    pub fn ticket(&self) -> (r: u64)
        ensures
            r == self.ticket_spec(),
    {
        self.ticket
    }
}

/// The answer to a download that asks for its turn.
#[derive(Debug)]
pub enum Turn {
    /// It may start.
    Granted(Slot),
    /// It was cancelled and gave its ticket up.
    GivenUp,
    /// Not yet: ask again.
    Wait,
}

impl View for Queue {
    type V = QueueState;

    closed spec fn view(&self) -> QueueState {
        QueueState {
            limit: self.limit as int,
            active: self.active as int,
            next: self.next as int,
            head: self.head as int,
            gone: self.gone@.to_set(),
        }
    }
}

impl Default for Queue {
    /// Three at a time, nobody waiting.
    fn default() -> (r: Queue)
        ensures
            r.well_formed(),
            r@ == (QueueState { limit: 3, active: 0, next: 0, head: 0, gone: Set::empty() }),
    {
        let r = Queue { limit: 3, active: 0, next: 0, head: 0, gone: Vec::new() };
        assert(r@.gone =~= Set::empty());
        r
    }
}

/// How many entries of `gone` are smaller than `t`.
spec fn below(gone: Seq<u64>, t: int) -> int
    decreases gone.len(),
{
    if gone.len() == 0 {
        0
    } else {
        below(gone.drop_last(), t) + if gone.last() < t { 1int } else { 0 }
    }
}

proof fn lemma_below_step(gone: Seq<u64>, t: int)
    requires
        gone.no_duplicates(),
        0 <= t < u64::MAX,
    ensures
        below(gone, t + 1) == below(gone, t) + if gone.contains(t as u64) { 1int } else { 0 },
    decreases gone.len(),
{
    if gone.len() > 0 {
        let rest = gone.drop_last();
        assert(rest.no_duplicates());
        lemma_below_step(rest, t);
        if gone.contains(t as u64) {
            let i = choose|i: int| 0 <= i < gone.len() && gone[i] == t as u64;
            if i < gone.len() - 1 {
                assert(rest[i] == t as u64);
            }
        }
        if rest.contains(t as u64) {
            let i = choose|i: int| 0 <= i < rest.len() && rest[i] == t as u64;
            assert(gone[i] == t as u64);
            assert(gone[gone.len() - 1] != gone[i]);
        }
        if gone.last() == t as u64 {
            assert(gone[gone.len() - 1] == t as u64);
        }
    }
}

proof fn lemma_ahead(head: int, t: int, gone: Seq<u64>)
    requires
        gone.no_duplicates(),
        forall|i: int| 0 <= i < gone.len() ==> #[trigger] gone[i] > head,
        0 <= head <= t <= u64::MAX,
    ensures
        ahead(head, t, gone.to_set()) == t - head - below(gone, t),
        below(gone, t) >= 0,
    decreases t - head,
{
    if t == head {
        lemma_none_below(gone, t);
    } else {
        lemma_ahead(head, t - 1, gone);
        lemma_below_step(gone, t - 1);
        assert(gone.to_set().contains((t - 1) as u64) == gone.contains((t - 1) as u64));
    }
}

proof fn lemma_none_below(gone: Seq<u64>, t: int)
    requires
        forall|i: int| 0 <= i < gone.len() ==> #[trigger] gone[i] > t,
    ensures
        below(gone, t) == 0,
    decreases gone.len(),
{
    if gone.len() > 0 {
        assert(gone[gone.len() - 1] > t);
        let rest = gone.drop_last();
        assert forall|i: int| 0 <= i < rest.len() implies #[trigger] rest[i] > t by {
            assert(gone[i] > t);
        }
        lemma_none_below(rest, t);
    }
}

proof fn lemma_ahead_is_small(head: int, t: int, gone: Set<u64>)
    ensures
        0 <= ahead(head, t, gone) <= num::max_of(t - head, 0),
    decreases t - head,
{
    if t > head {
        lemma_ahead_is_small(head, t - 1, gone);
    }
}

impl Queue {
    /// The state is well formed, and no given-up ticket is recorded twice.
    pub closed spec fn well_formed(self) -> bool {
        &&& self@.well_formed()
        &&& self.gone@.no_duplicates()
    }

    /// What a well-formed queue holds is well formed.
    pub proof fn lemma_well_formed(self)
        requires
            self.well_formed(),
        ensures
            self@.well_formed(),
    {
    }

    /// How many downloads run.
    pub fn active(&self) -> (r: u64)
        ensures
            r == self@.active,
    {
        self.active
    }

    /// How many downloads may run at once: at least one.
    pub fn set_limit(&mut self, n: u64)
        requires
            old(self).well_formed(),
        ensures
            final(self).well_formed(),
            final(self)@ == old(self)@.limited(n as int),
    {
        self.limit = if n < 1 { 1 } else { n };
    }

    /// Whether there is another ticket to hand out.
    pub fn has_tickets(&self) -> (r: bool)
        ensures
            r == (self@.next < u64::MAX),
    {
        self.next < u64::MAX
    }

    /// Hands out the next ticket.
    pub fn ticket(&mut self) -> (r: u64)
        requires
            old(self).well_formed(),
            old(self)@.next < u64::MAX,
        ensures
            final(self).well_formed(),
            r == old(self)@.next,
            final(self)@ == old(self)@.ticketed(),
    {
        let t: u64 = self.next;
        self.next = t + 1;
        assert(self@.gone == old(self)@.gone);
        t
    }

    /// How many are waiting in front of this ticket: zero if it is next.
    pub fn position(&self, ticket: u64) -> (r: u64)
        requires
            self.well_formed(),
        ensures
            r == ahead(self@.head, ticket as int, self@.gone),
    {
        if ticket <= self.head {
            return 0;
        }
        let mut n: u64 = 0;
        let mut i: usize = 0;
        proof {
            self.lemma_gone();
        }
        while i < self.gone.len()
            invariant
                i <= self.gone@.len(),
                n <= i,
                n == below(self.gone@.take(i as int), ticket as int),
            decreases self.gone@.len() - i,
        {
            assert(self.gone@.take(i + 1).drop_last() =~= self.gone@.take(i as int));
            if self.gone[i] < ticket {
                n = n + 1;
            }
            i = i + 1;
        }
        proof {
            assert(self.gone@.take(i as int) =~= self.gone@);
            lemma_ahead(self.head as int, ticket as int, self.gone@);
            lemma_ahead_is_small(self.head as int, ticket as int, self.gone@.to_set());
        }
        ticket - self.head - n
    }

    proof fn lemma_gone(self)
        requires
            self.well_formed(),
        ensures
            forall|i: int|
                0 <= i < self.gone@.len() ==> self.head < #[trigger] self.gone@[i] < self.next,
    {
        assert forall|i: int| 0 <= i < self.gone@.len() implies self.head < #[trigger] self.gone@[i]
            < self.next by {
            assert(self@.gone.contains(self.gone@[i]));
        }
    }

    /// Where `t` is recorded as given up, if it is.
    fn find_gone(&self, t: u64) -> (r: Option<usize>)
        ensures
            match r {
                Some(i) => i < self.gone@.len() && self.gone@[i as int] == t,
                None => !self.gone@.contains(t),
            },
    {
        let mut i: usize = 0;
        while i < self.gone.len()
            invariant
                i <= self.gone@.len(),
                forall|j: int| 0 <= j < i ==> self.gone@[j] != t,
            decreases self.gone@.len() - i,
        {
            if self.gone[i] == t {
                return Some(i);
            }
            i = i + 1;
        }
        None
    }

    /// The head moves on.
    fn advance(&mut self)
        requires
            old(self).well_formed(),
            old(self)@.head < old(self)@.next,
        ensures
            final(self).well_formed(),
            final(self)@ == old(self)@.advance(),
    {
        let ghost before = *self;
        let ghost to = skip_gone(self@.head + 1, self@.next, self@.gone);
        proof {
            self.lemma_gone();
        }
        self.head = self.head + 1;
        let mut found: Option<usize> = self.find_gone(self.head);
        while found.is_some()
            invariant
                self.limit == before.limit,
                self.active == before.active,
                self.next == before.next,
                before.well_formed(),
                before.head < self.head <= self.next,
                self.gone@.no_duplicates(),
                to == skip_gone(before.head + 1, before.next as int, before@.gone),
                skip_gone(self.head as int, self.next as int, self@.gone) == to,
                forall|t: u64| #[trigger]
                    self@.gone.contains(t) <==> before@.gone.contains(t) && t >= self.head,
                match found {
                    Some(i) => i < self.gone@.len() && self.gone@[i as int] == self.head,
                    None => !self.gone@.contains(self.head),
                },
            decreases self.gone@.len(),
        {
            let i: usize = found.unwrap();
            let ghost mid = *self;
            assert(mid@.gone.contains(mid.gone@[i as int]));
            assert(before@.gone.contains(self.head));
            self.gone.remove(i);
            self.head = self.head + 1;
            proof {
                lemma_remove(mid.gone@, i as int);
                assert(self.gone@ == mid.gone@.remove(i as int));
                assert forall|t: u64| #[trigger]
                    self@.gone.contains(t) <==> before@.gone.contains(t) && t >= self.head by {
                    assert(self@.gone.contains(t) <==> mid@.gone.contains(t) && t != mid.head);
                }
                lemma_skip_same(
                    self.head as int,
                    self.next as int,
                    mid@.gone,
                    self@.gone,
                );
            }
            found = self.find_gone(self.head);
        }
        proof {
            assert(!self@.gone.contains(self.head));
            assert(self.head == to);
            assert(self@.gone =~= before@.advance().gone);
        }
    }

    /// Gives a ticket up without downloading: the next one still waiting
    /// becomes the head, or the queue would stop here.
    pub fn give_up(&mut self, ticket: u64)
        requires
            old(self).well_formed(),
            ticket < old(self)@.next,
        ensures
            final(self).well_formed(),
            final(self)@ == old(self)@.without(ticket),
    {
        if ticket == self.head {
            self.advance();
        } else if ticket > self.head {
            let found = self.find_gone(ticket);
            if found.is_none() {
                let ghost before = self.gone@;
                self.gone.push(ticket);
                proof {
                    before.lemma_push_to_set_commute(ticket);
                    assert(self@.gone == old(self)@.gone.insert(ticket));
                }
            } else {
                assert(self.gone@.contains(ticket));
                assert(self@.gone =~= self@.gone.insert(ticket));
            }
        }
    }

    /// Asks for a turn. `abort` says that the download was cancelled while it
    /// waited: it then gives its ticket up. Otherwise it enters if it is the
    /// head and there is room.
    pub fn enter(&mut self, ticket: u64, abort: bool) -> (r: Turn)
        requires
            old(self).well_formed(),
            ticket < old(self)@.next,
        ensures
            final(self).well_formed(),
            match r {
                Turn::GivenUp => abort && final(self)@ == old(self)@.without(ticket),
                Turn::Granted(s) => {
                    &&& !abort
                    &&& old(self)@.admits(ticket as int)
                    &&& s.ticket_spec() == ticket
                    &&& final(self)@ == old(self)@.entered()
                },
                Turn::Wait => {
                    &&& !abort
                    &&& !old(self)@.admits(ticket as int)
                    &&& final(self)@ == old(self)@
                },
            },
    {
        if abort {
            self.give_up(ticket);
            return Turn::GivenUp;
        }
        if self.head == ticket && self.active < self.limit {
            self.advance();
            self.active = self.active + 1;
            Turn::Granted(Slot { ticket })
        } else {
            Turn::Wait
        }
    }

    /// Ends a download: its place is free.
    pub fn leave(&mut self, slot: Slot)
        requires
            old(self).well_formed(),
            old(self)@.active > 0,
        ensures
            final(self).well_formed(),
            final(self)@ == old(self)@.left(),
    {
        self.active = self.active - 1;
        assert(self@.gone == old(self)@.gone);
    }
}

proof fn lemma_remove(s: Seq<u64>, i: int)
    requires
        s.no_duplicates(),
        0 <= i < s.len(),
    ensures
        s.remove(i).no_duplicates(),
        forall|x: u64| #[trigger]
            s.remove(i).to_set().contains(x) <==> s.to_set().contains(x) && x != s[i],
{
    let r = s.remove(i);
    assert forall|x: u64| #[trigger] r.to_set().contains(x) <==> s.to_set().contains(x) && x
        != s[i] by {
        if r.contains(x) {
            let j = choose|j: int| 0 <= j < r.len() && r[j] == x;
            assert(s[if j < i { j } else { j + 1 }] == x);
        }
        if s.contains(x) && x != s[i] {
            let j = choose|j: int| 0 <= j < s.len() && s[j] == x;
            assert(r[if j < i { j } else { j - 1 }] == x);
        }
    }
}

/// Which tickets were given up before `from` does not matter from there on.
proof fn lemma_skip_same(from: int, next: int, a: Set<u64>, b: Set<u64>)
    requires
        0 <= from <= next <= u64::MAX,
        forall|t: u64| t >= from ==> (a.contains(t) <==> b.contains(t)),
    ensures
        skip_gone(from, next, a) == skip_gone(from, next, b),
    decreases next - from,
{
    if from < next {
        lemma_skip_same(from + 1, next, a, b);
    }
}

/// Something that happens to a queue.
pub enum QueueOp {
    SetLimit(u64),
    Ticket,
    GiveUp(u64),
    /// A download asks for its turn; the flag says that it was cancelled.
    Ask(u64, bool),
    Leave,
}

impl QueueState {
    /// Whether `op` can happen: tickets were handed out, and only a running
    /// download leaves.
    pub open spec fn allows(self, op: QueueOp) -> bool {
        match op {
            QueueOp::SetLimit(_) => true,
            QueueOp::Ticket => self.next < u64::MAX,
            QueueOp::GiveUp(t) => t < self.next,
            QueueOp::Ask(t, _) => t < self.next,
            QueueOp::Leave => self.active > 0,
        }
    }

    /// Whether `op` is a download that gets its turn.
    pub open spec fn grants(self, op: QueueOp) -> bool {
        match op {
            QueueOp::Ask(t, abort) => !abort && self.admits(t as int),
            _ => false,
        }
    }

    /// The queue after `op`.
    pub open spec fn after(self, op: QueueOp) -> QueueState {
        match op {
            QueueOp::SetLimit(n) => self.limited(n as int),
            QueueOp::Ticket => self.ticketed(),
            QueueOp::GiveUp(t) => self.without(t),
            QueueOp::Ask(t, abort) => if abort {
                self.without(t)
            } else if self.admits(t as int) {
                self.entered()
            } else {
                self
            },
            QueueOp::Leave => self.left(),
        }
    }

    /// The queue after all of `ops`.
    pub open spec fn run(self, ops: Seq<QueueOp>) -> QueueState
        decreases ops.len(),
    {
        if ops.len() == 0 { self } else { self.run(ops.drop_last()).after(ops.last()) }
    }

    /// Whether all of `ops` can happen one after the other.
    pub open spec fn allows_all(self, ops: Seq<QueueOp>) -> bool
        decreases ops.len(),
    {
        ops.len() == 0 || self.allows_all(ops.drop_last()) && self.run(ops.drop_last()).allows(
            ops.last(),
        )
    }
}

proof fn lemma_skip(from: int, next: int, gone: Set<u64>)
    requires
        0 <= from <= next,
    ensures
        from <= skip_gone(from, next, gone) <= next,
        forall|u: int|
            from <= u < skip_gone(from, next, gone) ==> gone.contains(#[trigger] (u as u64)),
        skip_gone(from, next, gone) < next ==> !gone.contains(skip_gone(from, next, gone) as u64),
    decreases next - from,
{
    if from < next && gone.contains(from as u64) {
        lemma_skip(from + 1, next, gone);
    }
}

/// Whatever happens, the queue stays well formed and never goes back: the head
/// and the tickets handed out only grow. A download that gets its turn never
/// makes more run than the limit says.
pub proof fn operations_keep_the_queue_in_order(q: QueueState, op: QueueOp)
    requires
        q.well_formed(),
        q.allows(op),
    ensures
        q.after(op).well_formed(),
        q.after(op).head >= q.head,
        q.after(op).next >= q.next,
        q.grants(op) ==> q.after(op).active <= q.after(op).limit && q.after(op).head > q.head,
{
    if q.head < q.next {
        lemma_skip(q.head + 1, q.next, q.gone);
        let a = q.advance();
        assert forall|t: u64| #[trigger] a.gone.contains(t) implies a.head < t < a.next by {
            assert(q.gone.contains(t));
        }
        assert(a.well_formed());
    }
    let b = q.after(op);
    assert forall|t: u64| #[trigger] b.gone.contains(t) implies b.head < t < b.next by {
        match op {
            QueueOp::GiveUp(x) => {
                if x > q.head && t != x {
                    assert(q.gone.contains(t));
                }
            },
            QueueOp::Ask(x, abort) => {
                if abort && x > q.head && t != x {
                    assert(q.gone.contains(t));
                }
            },
            _ => {
                assert(q.gone.contains(t));
            },
        }
    }
}

proof fn lemma_run(q: QueueState, ops: Seq<QueueOp>, i: int)
    requires
        q.well_formed(),
        q.allows_all(ops),
        0 <= i <= ops.len(),
    ensures
        q.allows_all(ops.take(i)),
        q.run(ops).well_formed(),
        q.run(ops.take(i)).well_formed(),
        q.run(ops.take(i)).head <= q.run(ops).head,
        i < ops.len() ==> q.run(ops.take(i)).allows(ops[i]) && q.run(ops.take(i + 1)) == q.run(
            ops.take(i),
        ).after(ops[i]),
    decreases ops.len(),
{
    if ops.len() == 0 {
        assert(ops.take(0) =~= ops);
    } else {
        let init = ops.drop_last();
        lemma_run(q, init, if i < ops.len() { i } else { i - 1 });
        operations_keep_the_queue_in_order(q.run(init), ops.last());
        if i == ops.len() {
            assert(ops.take(i) =~= ops);
        } else {
            assert(ops.take(i) =~= init.take(i));
            if i + 1 < ops.len() {
                assert(ops.take(i + 1) =~= init.take(i + 1));
                assert(ops[i] == init[i]);
            } else {
                assert(ops.take(i + 1) =~= ops);
                assert(init.take(i) =~= init);
            }
        }
    }
}

/// First come, first served: of two downloads that get their turn, the one
/// with the lower ticket gets it first.
pub proof fn turns_follow_the_tickets(q: QueueState, ops: Seq<QueueOp>, i: int, j: int)
    requires
        q.well_formed(),
        q.allows_all(ops),
        0 <= i < j < ops.len(),
        q.run(ops.take(i)).grants(ops[i]),
        q.run(ops.take(j)).grants(ops[j]),
    ensures
        ops[i]->Ask_0 < ops[j]->Ask_0,
{
    lemma_run(q, ops, i);
    lemma_run(q, ops, j);
    operations_keep_the_queue_in_order(q.run(ops.take(i)), ops[i]);
    let upto = ops.take(j);
    lemma_run(q, upto, i + 1);
    assert(upto.take(i + 1) =~= ops.take(i + 1));
}

/// Once passed or given up, a ticket stays so.
proof fn lemma_stays_out(q: QueueState, op: QueueOp, t: u64)
    requires
        q.well_formed(),
        q.allows(op),
        t < q.next,
        !q.waits(t as int),
    ensures
        t < q.after(op).next,
        !q.after(op).waits(t as int),
{
    operations_keep_the_queue_in_order(q, op);
    if t >= q.head {
        assert(q.gone.contains(t));
        if q.head < q.next {
            lemma_skip(q.head + 1, q.next, q.gone);
        }
    }
}

proof fn lemma_stays_out_run(q: QueueState, ops: Seq<QueueOp>, i: int, j: int, t: u64)
    requires
        q.well_formed(),
        q.allows_all(ops),
        0 <= i <= j <= ops.len(),
        t < q.run(ops.take(i)).next,
        !q.run(ops.take(i)).waits(t as int),
    ensures
        t < q.run(ops.take(j)).next,
        !q.run(ops.take(j)).waits(t as int),
    decreases j,
{
    if i < j {
        lemma_stays_out_run(q, ops, i, j - 1, t);
        lemma_run(q, ops, j - 1);
        lemma_stays_out(q.run(ops.take(j - 1)), ops[j - 1], t);
    }
}

/// A download that gave its ticket up never gets a turn with it later.
pub proof fn given_up_tickets_never_enter(q: QueueState, ops: Seq<QueueOp>, i: int, j: int, t: u64)
    requires
        q.well_formed(),
        q.allows_all(ops),
        0 <= i < j < ops.len(),
        ops[i] == QueueOp::GiveUp(t) || ops[i] == QueueOp::Ask(t, true),
        q.run(ops.take(j)).grants(ops[j]),
    ensures
        ops[j]->Ask_0 != t,
{
    lemma_run(q, ops, i);
    lemma_run(q, ops, j);
    let a = q.run(ops.take(i));
    operations_keep_the_queue_in_order(a, ops[i]);
    if a.head < a.next {
        lemma_skip(a.head + 1, a.next, a.gone);
    }
    lemma_stays_out_run(q, ops, i + 1, j, t);
}

/// The queue never stops: as long as anybody waits, the head waits, and it is
/// let in as soon as fewer downloads run than the limit says.
pub proof fn the_head_can_always_enter(q: QueueState, t: int)
    requires
        q.well_formed(),
        q.waits(t),
    ensures
        q.waits(q.head),
        q.active < q.limit ==> q.admits(q.head),
{
    if q.gone.contains(q.head as u64) {
        assert(q.head < q.head as u64);
    }
}

/// Everybody behind the head moves up by one when the head enters or gives
/// up.
pub proof fn everybody_moves_up(q: QueueState, t: int)
    requires
        q.well_formed(),
        q.waits(t),
        t > q.head,
    ensures
        ahead(q.entered().head, t, q.entered().gone) == ahead(q.head, t, q.gone) - 1,
        ahead(q.without(q.head as u64).head, t, q.without(q.head as u64).gone) == ahead(
            q.head,
            t,
            q.gone,
        ) - 1,
{
    lemma_skip(q.head + 1, q.next, q.gone);
    let to = skip_gone(q.head + 1, q.next, q.gone);
    if t < to {
        assert(q.gone.contains(t as u64));
    }
    the_head_can_always_enter(q, t);
    lemma_ahead_skips(q.head, to, t, q.gone, q.advance().gone);
}

proof fn lemma_ahead_skips(head: int, to: int, t: int, gone: Set<u64>, later: Set<u64>)
    requires
        0 <= head < to <= t <= u64::MAX,
        !gone.contains(head as u64),
        forall|u: int| head + 1 <= u < to ==> gone.contains(#[trigger] (u as u64)),
        forall|x: u64| later.contains(x) <==> gone.contains(x) && x > to,
        !gone.contains(to as u64) || t == to,
    ensures
        ahead(to, t, later) == ahead(head, t, gone) - 1,
    decreases t - head,
{
    if t > to {
        lemma_ahead_skips(head, to, t - 1, gone, later);
    } else {
        lemma_ahead_all_gone(head, t, gone);
    }
}

proof fn lemma_ahead_all_gone(head: int, t: int, gone: Set<u64>)
    requires
        0 <= head < t <= u64::MAX,
        !gone.contains(head as u64),
        forall|u: int| head + 1 <= u < t ==> gone.contains(#[trigger] (u as u64)),
    ensures
        ahead(head, t, gone) == 1,
    decreases t - head,
{
    if t > head + 1 {
        lemma_ahead_all_gone(head, t - 1, gone);
        assert(gone.contains((t - 1) as u64));
    } else {
        assert(ahead(head, t - 1, gone) == 0);
    }
}

/// The limit is what was asked for, and at least one; nothing else about the
/// queue changes with it.
pub proof fn limits_are_at_least_one(q: QueueState, n: int)
    ensures
        n >= 1 ==> q.limited(n).limit == n,
        n < 1 ==> q.limited(n).limit == 1,
        q.limited(n).active == q.active && q.limited(n).next == q.next && q.limited(n).head == q.head
            && q.limited(n).gone == q.gone,
{
}

/// Who takes a ticket waits, behind everybody who waited before.
pub proof fn new_tickets_wait_behind_the_others(q: QueueState, t: int)
    requires
        q.well_formed(),
        q.next < u64::MAX,
    ensures
        q.ticketed().waits(q.next),
        t != q.next ==> q.ticketed().waits(t) == q.waits(t),
        q.waits(t) ==> t < q.next,
        q.ticketed().active == q.active && q.ticketed().limit == q.limit,
{
    if q.gone.contains(q.next as u64) {
        assert(q.next < q.next);
    }
}

/// Who enters waits no longer and counts as running; everybody else waits as
/// before.
pub proof fn entering_takes_one_place(q: QueueState, t: int)
    requires
        q.well_formed(),
        q.head < q.next,
    ensures
        q.entered().active == q.active + 1,
        !q.entered().waits(q.head),
        t != q.head ==> q.entered().waits(t) == q.waits(t),
        q.entered().limit == q.limit && q.entered().next == q.next,
{
    lemma_advance_waits(q, t);
    lemma_advance_waits(q, q.head);
}

proof fn lemma_advance_waits(q: QueueState, t: int)
    requires
        q.well_formed(),
        q.head < q.next,
    ensures
        q.advance().waits(t) <==> q.waits(t) && t != q.head,
{
    lemma_skip(q.head + 1, q.next, q.gone);
    let to = skip_gone(q.head + 1, q.next, q.gone);
    if q.waits(t) && t != q.head && t < to {
        assert(q.gone.contains(t as u64));
    }
    if q.head <= t < q.next {
        assert(q.advance().gone.contains(t as u64) <==> q.gone.contains(t as u64) && t > to);
    }
}

/// Who gives up waits no longer; everybody else waits as before, and nobody
/// starts or ends.
pub proof fn giving_up_concerns_nobody_else(q: QueueState, t: u64, u: int)
    requires
        q.well_formed(),
        t < q.next,
    ensures
        !q.without(t).waits(t as int),
        u != t ==> q.without(t).waits(u) == q.waits(u),
        q.without(t).active == q.active && q.without(t).limit == q.limit && q.without(t).next
            == q.next,
{
    if t == q.head {
        lemma_advance_waits(q, u);
        lemma_advance_waits(q, t as int);
    }
}

/// A download that ends frees one place, and nobody who waits loses theirs.
pub proof fn leaving_frees_one_place(q: QueueState, t: int)
    ensures
        q.left().active == q.active - 1,
        q.left().waits(t) == q.waits(t),
        q.left().limit == q.limit && q.left().next == q.next && q.left().head == q.head
            && q.left().gone == q.gone,
{
}

/// The first who waits is let in as soon as there is room, and nobody else:
/// not while the limit is reached, and not before those with lower tickets.
pub proof fn the_first_who_waits_is_let_in(q: QueueState, t: int, u: int)
    requires
        q.well_formed(),
    ensures
        q.waits(t) && q.active < q.limit && (forall|v: int| v < t ==> !#[trigger] q.waits(v))
            ==> q.admits(t),
        q.active >= q.limit ==> !q.admits(t),
        q.waits(u) && u < t ==> !q.admits(t),
{
    if q.waits(t) {
        the_head_can_always_enter(q, t);
    }
    if q.waits(u) {
        the_head_can_always_enter(q, u);
    }
}

/// A position counts those who wait in front: nobody in front of the first,
/// and one more behind each who waits.
pub proof fn positions_count_those_in_front(q: QueueState, t: int)
    requires
        q.well_formed(),
        q.head <= t < q.next,
    ensures
        ahead(q.head, q.head, q.gone) == 0,
        q.waits(t) ==> ahead(q.head, t + 1, q.gone) == ahead(q.head, t, q.gone) + 1,
        !q.waits(t) ==> ahead(q.head, t + 1, q.gone) == ahead(q.head, t, q.gone),
{
}

} // verus!
