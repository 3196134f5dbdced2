//! Byte ranges of a file and how they are divided between connections.
//!
//! A file of `total` bytes is cut into inclusive ranges, one per connection.
//! A connection that runs out of work takes over the upper half of the range
//! that has the most left, so the ranges move while the download runs. What
//! never moves is that every byte of the file has exactly one owner.

use crate::num::{self, clamp};
use vstd::prelude::*;

verus! {

/// Smallest range worth a connection of its own when a file is first cut up.
pub const MIN_SEGMENT: u64 = 4 * 1024 * 1024;

/// A range is halved only while at least twice this many bytes are missing.
pub const STEAL_MIN: u64 = 2 * 1024 * 1024;

/// One inclusive byte range `start..=end` and how far it has come.
#[derive(Debug, Clone, Copy, PartialEq, Eq, Structural)]
pub struct Seg {
    /// First byte.
    pub start: u64,
    /// Last byte; shrinks when another connection takes over the upper half.
    pub end: u64,
    /// Bytes received, counted from `start`.
    pub done: u64,
    /// Bytes that have left the write buffer: only these survive a crash, so
    /// this is the count a saved download restarts from.
    pub flushed: u64,
}

impl Seg {
    /// How many bytes the range spans.
    pub open spec fn span(self) -> int {
        (if self.end >= self.start { self.end - self.start } else { 0 }) + 1
    }

    /// How many bytes of the range are still missing.
    pub open spec fn left(self) -> int {
        if self.done <= self.span() { self.span() - self.done } else { 0 }
    }

    /// Whether byte `b` of the file belongs to this range.
    pub open spec fn owns(self, b: int) -> bool {
        self.start <= b <= self.end
    }

    /// The range is not empty and its counters fit inside it.
    pub open spec fn well_formed(self) -> bool {
        &&& self.start <= self.end
        &&& self.flushed <= self.done <= self.span()
    }

    /// A range of which the first `done` bytes are already on disk.
    pub fn new(start: u64, end: u64, done: u64) -> (r: Seg)
        ensures
            r == (Seg { start, end, done, flushed: done }),
    {
        Seg { start, end, done, flushed: done }
    }

    /// The last byte of the range.
    pub fn end(&self) -> (r: u64)
        ensures
            r == self.end,
    {
        self.end
    }

    /// To be called after every flush: the safe offset catches up with the
    /// bytes written.
    pub fn mark_flushed(&mut self)
        ensures
            *final(self) == (Seg { flushed: old(self).done, ..*old(self) }),
    {
        self.flushed = self.done;
    }

    /// How many bytes the range spans.
    pub fn len(&self) -> (r: u64)
        requires
            self.span() <= u64::MAX,
        ensures
            r == self.span(),
    {
        self.end.saturating_sub(self.start) + 1
    }

    /// How many bytes are still missing.
    pub fn remaining(&self) -> (r: u64)
        requires
            self.span() <= u64::MAX,
        ensures
            r == self.left(),
    {
        self.len().saturating_sub(self.done)
    }

    /// Forgets the bytes that never left the write buffer, and returns how
    /// many they were. A new attempt starts at the last flushed offset:
    /// starting at `done` would leave a hole in the file.
    pub fn rewind(&mut self) -> (lost: u64)
        ensures
            *final(self) == (Seg { done: old(self).flushed, ..*old(self) }),
            lost == if old(self).done >= old(self).flushed {
                old(self).done - old(self).flushed
            } else {
                0
            },
    {
        let lost: u64 = self.done.saturating_sub(self.flushed);
        self.done = self.flushed;
        lost
    }
}

/// Some range of `segs` owns byte `b`.
pub open spec fn owned(segs: Seq<Seg>, b: int) -> bool {
    exists|i: int| 0 <= i < segs.len() && (#[trigger] segs[i]).owns(b)
}

/// No byte has two owners.
pub open spec fn disjoint(segs: Seq<Seg>) -> bool {
    forall|i: int, j: int, b: int|
        0 <= i < segs.len() && 0 <= j < segs.len() && (#[trigger] segs[i].owns(b))
            && (#[trigger] segs[j].owns(b)) ==> i == j
}

/// Every range is well formed.
pub open spec fn all_well_formed(segs: Seq<Seg>) -> bool {
    forall|i: int| 0 <= i < segs.len() ==> (#[trigger] segs[i]).well_formed()
}

/// Every range has a length that a `u64` can hold.
pub open spec fn all_countable(segs: Seq<Seg>) -> bool {
    forall|i: int| 0 <= i < segs.len() ==> (#[trigger] segs[i]).span() <= u64::MAX
}

/// The ranges cover the bytes `0..total`, nothing else, and none twice.
pub open spec fn tiles(segs: Seq<Seg>, total: int) -> bool {
    &&& forall|b: int| 0 <= b < total <==> #[trigger] owned(segs, b)
    &&& disjoint(segs)
}

/// The lengths of all ranges together.
pub open spec fn total_span(segs: Seq<Seg>) -> int
    decreases segs.len(),
{
    if segs.len() == 0 {
        0
    } else {
        total_span(segs.drop_last()) + segs.last().span()
    }
}

/// The bytes received in all ranges together.
pub open spec fn total_done(segs: Seq<Seg>) -> int
    decreases segs.len(),
{
    if segs.len() == 0 {
        0
    } else {
        total_done(segs.drop_last()) + segs.last().done
    }
}

/// `v` is the range to halve: it misses the most bytes, the last of them where
/// several miss as many, and enough for halving to pay.
pub open spec fn is_victim(segs: Seq<Seg>, v: int) -> bool {
    &&& 0 <= v < segs.len()
    &&& segs[v].left() >= STEAL_MIN * 2
    &&& forall|i: int|
        0 <= i < segs.len() ==> (#[trigger] segs[i]).left() <= segs[v].left() && (i > v
            ==> segs[i].left() < segs[v].left())
}

/// The ranges after half of what range `v` misses went to a new range.
pub open spec fn halved(segs: Seq<Seg>, v: int) -> Seq<Seg> {
    let cut = segs[v].end - segs[v].left() / 2;
    segs.update(v, Seg { end: cut as u64, ..segs[v] }).push(
        Seg { start: (cut + 1) as u64, end: segs[v].end, done: 0, flushed: 0 },
    )
}

/// Work stealing: halves the range with the most left to do and returns the
/// upper half, which is also appended to `segs`. `None` if no range has enough
/// left to be worth it.
pub fn steal_segment(segs: &mut Vec<Seg>) -> (r: Option<Seg>)
    requires
        all_countable(old(segs)@),
    ensures
        match r {
            None => {
                &&& final(segs)@ == old(segs)@
                &&& forall|i: int|
                    0 <= i < old(segs)@.len() ==> (#[trigger] old(segs)@[i]).left() < STEAL_MIN * 2
            },
            Some(t) => exists|v: int| #[trigger]
                is_victim(old(segs)@, v) && final(segs)@ == halved(old(segs)@, v) && t
                    == final(segs)@.last(),
        },
{
    let mut best: Option<usize> = None;
    let mut best_left: u64 = 0;
    let mut i: usize = 0;
    while i < segs.len()
        invariant
            segs@ == old(segs)@,
            all_countable(segs@),
            i <= segs.len(),
            match best {
                None => forall|j: int| 0 <= j < i ==> (#[trigger] segs@[j]).left() < STEAL_MIN * 2,
                Some(v) => {
                    &&& v < i
                    &&& best_left == segs@[v as int].left()
                    &&& best_left >= STEAL_MIN * 2
                    &&& forall|j: int|
                        0 <= j < i ==> (#[trigger] segs@[j]).left() <= best_left && (j > v
                            ==> segs@[j].left() < best_left)
                },
            },
        decreases segs.len() - i,
    {
        let left: u64 = segs[i].remaining();
        if left >= STEAL_MIN * 2 {
            let better: bool = match best {
                None => true,
                Some(_) => left >= best_left,
            };
            if better {
                best = Some(i);
                best_left = left;
            }
        }
        i = i + 1;
    }
    match best {
        None => None,
        Some(v) => {
            let victim: Seg = segs[v];
            let end: u64 = victim.end;
            let steal: u64 = best_left / 2;
            let new_end: u64 = end - steal;
            proof {
                assert(is_victim(old(segs)@, v as int));
            }
            // the victim shrinks before the thief is born: never two owners
            segs.set(v, Seg { end: new_end, ..victim });
            let thief = Seg::new(new_end + 1, end, 0);
            segs.push(thief);
            assert(segs@ =~= halved(old(segs)@, v as int));
            Some(thief)
        },
    }
}

/// In how many parts a file of `len` bytes is cut.
pub open spec fn parts(len: int, max_parts: int, min_size: int) -> int {
    num::within(len / min_size, 1, max_parts)
}

/// The first and the last byte of part `i` of `n`: equal parts, of which the
/// last takes the remainder as well.
pub open spec fn part_bounds(len: int, n: int, i: int) -> (u64, u64) {
    let base = len / n;
    ((i * base) as u64, if i == n - 1 { (len - 1) as u64 } else { ((i + 1) * base - 1) as u64 })
}

/// Inclusive ranges that together cover `len` bytes: as many as fit with at
/// least `min_size` bytes each, but at least one and at most `max_parts`.
pub fn split_segments(len: u64, max_parts: u64, min_size: u64) -> (r: Vec<(u64, u64)>)
    requires
        len >= 1,
        max_parts >= 1,
        min_size >= 1,
    ensures
        r@.len() == parts(len as int, max_parts as int, min_size as int),
        forall|i: int|
            0 <= i < r@.len() ==> #[trigger] r@[i] == part_bounds(len as int, r@.len() as int, i),
{
    let n: u64 = clamp(len / min_size, 1, max_parts);
    let base: u64 = len / n;
    let mut r: Vec<(u64, u64)> = Vec::new();
    let mut i: u64 = 0;
    while i < n
        invariant
            len >= 1,
            max_parts >= 1,
            min_size >= 1,
            1 <= n,
            i <= n,
            base == len / n,
            n == parts(len as int, max_parts as int, min_size as int),
            r@.len() == i,
            forall|j: int|
                0 <= j < i ==> #[trigger] r@[j] == part_bounds(len as int, n as int, j),
        decreases n - i,
    {
        proof {
            lemma_parts_fit(len as int, max_parts as int, min_size as int, i as int);
        }
        let start: u64 = i * base;
        let end: u64 = if i == n - 1 { len - 1 } else { (i + 1) * base - 1 };
        r.push((start, end));
        i = i + 1;
    }
    r
}

/// Every part starts and ends inside the file, and none is empty.
proof fn lemma_parts_fit(len: int, max_parts: int, min_size: int, i: int)
    requires
        len >= 1,
        max_parts >= 1,
        min_size >= 1,
        0 <= i < parts(len, max_parts, min_size),
    ensures
        parts(len, max_parts, min_size) <= len,
        len / parts(len, max_parts, min_size) >= 1,
        0 <= i * (len / parts(len, max_parts, min_size)),
        i * (len / parts(len, max_parts, min_size)) + len / parts(len, max_parts, min_size) == (i
            + 1) * (len / parts(len, max_parts, min_size)),
        (i + 1) * (len / parts(len, max_parts, min_size)) <= len,
{
    let n = parts(len, max_parts, min_size);
    assert(len / min_size <= len) by (nonlinear_arith)
        requires
            len >= 1,
            min_size >= 1,
    ;
    let base = len / n;
    assert(base >= 1 && n * base <= len) by (nonlinear_arith)
        requires
            1 <= n <= len,
            base == len / n,
    ;
    assert(0 <= i * base && i * base + base == (i + 1) * base && (i + 1) * base <= n * base)
        by (nonlinear_arith)
        requires
            0 <= i < n,
            base >= 1,
    ;
}

/// The ranges of a fresh download: the parts of the file, nothing received.
pub open spec fn fresh(bounds: Seq<(u64, u64)>) -> Seq<Seg> {
    Seq::new(
        bounds.len(),
        |i: int| Seg { start: bounds[i].0, end: bounds[i].1, done: 0, flushed: 0 },
    )
}

/// Cutting up a file gives every byte of it to exactly one range, and no
/// range reaches past its end.
pub proof fn split_tiles_the_file(len: u64, max_parts: u64, min_size: u64, bounds: Seq<(u64, u64)>)
    requires
        len >= 1,
        max_parts >= 1,
        min_size >= 1,
        bounds.len() == parts(len as int, max_parts as int, min_size as int),
        forall|i: int|
            0 <= i < bounds.len() ==> #[trigger] bounds[i] == part_bounds(
                len as int,
                bounds.len() as int,
                i,
            ),
    ensures
        tiles(fresh(bounds), len as int),
        all_well_formed(fresh(bounds)),
        total_span(fresh(bounds)) == len,
{
    let segs = fresh(bounds);
    let n = bounds.len() as int;
    let base = len as int / n;
    assert forall|i: int| 0 <= i < n implies {
        &&& (#[trigger] segs[i]).start == i * base
        &&& segs[i].end == if i == n - 1 { len - 1 } else { (i + 1) * base - 1 }
        &&& segs[i].start <= segs[i].end < len
        &&& segs[i].well_formed()
    } by {
        lemma_parts_fit(len as int, max_parts as int, min_size as int, i);
        assert(bounds[i] == part_bounds(len as int, n, i));
    }
    lemma_parts_fit(len as int, max_parts as int, min_size as int, 0);
    assert forall|b: int| 0 <= b < len implies #[trigger] owned(segs, b) by {
        let q = b / base;
        let i = if q < n { q } else { n - 1 };
        assert(q * base <= b < (q + 1) * base && q >= 0) by (nonlinear_arith)
            requires
                base >= 1,
                b >= 0,
                q == b / base,
        ;
        assert(i * base <= q * base) by (nonlinear_arith)
            requires
                i <= q,
                base >= 1,
        ;
        assert(segs[i].owns(b));
    }
    assert forall|i: int, j: int, b: int|
        0 <= i < n && 0 <= j < n && (#[trigger] segs[i].owns(b)) && (#[trigger] segs[j].owns(
            b,
        )) implies i == j by {
        if i < j {
            assert((i + 1) * base <= j * base) by (nonlinear_arith)
                requires
                    i < j,
                    base >= 1,
            ;
        } else if j < i {
            assert((j + 1) * base <= i * base) by (nonlinear_arith)
                requires
                    j < i,
                    base >= 1,
            ;
        }
    }
    lemma_contiguous_span(segs, n, base);
    assert(segs.take(n) =~= segs);
}

/// The first `k` of the parts of a fresh download span what lies before the
/// end of the last of them.
proof fn lemma_contiguous_span(segs: Seq<Seg>, k: int, base: int)
    requires
        0 <= k <= segs.len(),
        forall|i: int|
            0 <= i < segs.len() ==> (#[trigger] segs[i]).start == i * base && segs[i].start
                <= segs[i].end && (i < segs.len() - 1 ==> segs[i].end == (i + 1) * base - 1),
    ensures
        total_span(segs.take(k)) == if k == 0 { 0 } else { segs[k - 1].end + 1 },
    decreases k,
{
    if k > 0 {
        lemma_contiguous_span(segs, k - 1, base);
        assert(segs.take(k).drop_last() =~= segs.take(k - 1));
        if k > 1 {
            assert(segs[k - 1].start == (k - 1) * base);
            assert(segs[k - 2].end == (k - 2 + 1) * base - 1);
        } else {
            assert(segs[0].start == 0 * base);
        }
    }
}

/// Changing one range changes the sums by what that range changed.
proof fn lemma_sums_update(segs: Seq<Seg>, v: int, s: Seg)
    requires
        0 <= v < segs.len(),
    ensures
        total_span(segs.update(v, s)) == total_span(segs) - segs[v].span() + s.span(),
        total_done(segs.update(v, s)) == total_done(segs) - segs[v].done + s.done,
    decreases segs.len(),
{
    let after = segs.update(v, s);
    if v == segs.len() - 1 {
        assert(after.drop_last() =~= segs.drop_last());
    } else {
        lemma_sums_update(segs.drop_last(), v, s);
        assert(after.drop_last() =~= segs.drop_last().update(v, s));
    }
}

/// Halving a range moves bytes between owners and nothing else: every byte
/// keeps exactly one owner, no byte is lost or added, what was received stays
/// where it was received, and where no range had received more bytes than it
/// spans, none has afterwards.
pub proof fn steal_keeps_every_byte_owned_once(segs: Seq<Seg>, v: int, total: int)
    requires
        is_victim(segs, v),
        tiles(segs, total),
    ensures
        tiles(halved(segs, v), total),
        all_well_formed(segs) ==> all_well_formed(halved(segs, v)),
        total_span(halved(segs, v)) == total_span(segs),
        total_done(halved(segs, v)) == total_done(segs),
        forall|i: int|
            0 <= i < segs.len() ==> (#[trigger] halved(segs, v)[i]).start == segs[i].start && halved(
                segs,
                v,
            )[i].done == segs[i].done && halved(segs, v)[i].flushed == segs[i].flushed,
{
    let after = halved(segs, v);
    let cut = segs[v].end - segs[v].left() / 2;
    let shrunk = Seg { end: cut as u64, ..segs[v] };
    let thief = Seg { start: (cut + 1) as u64, end: segs[v].end, done: 0, flushed: 0 };
    assert(after =~= segs.update(v, shrunk).push(thief));
    let n = segs.len() as int;
    assert forall|i: int|
        all_well_formed(segs) && 0 <= i < after.len() implies (#[trigger] after[i]).well_formed() by {
        assert(segs[v].well_formed());
        if i < n {
            assert(segs[i].well_formed());
        }
    }
    assert forall|b: int| 0 <= b < total <==> #[trigger] owned(after, b) by {
        if owned(segs, b) {
            let i = choose|i: int| 0 <= i < segs.len() && (#[trigger] segs[i]).owns(b);
            if i != v {
                assert(after[i].owns(b));
            } else if b <= cut {
                assert(after[v].owns(b));
            } else {
                assert(after[n].owns(b));
            }
        }
        if owned(after, b) {
            let i = choose|i: int| 0 <= i < after.len() && (#[trigger] after[i]).owns(b);
            if i == n {
                assert(segs[v].owns(b));
            } else {
                assert(segs[i].owns(b));
            }
        }
    }
    assert forall|i: int, j: int, b: int|
        0 <= i < after.len() && 0 <= j < after.len() && (#[trigger] after[i].owns(b)) && (
        #[trigger] after[j].owns(b)) implies i == j by {
        let oi = if i == n { v } else { i };
        let oj = if j == n { v } else { j };
        assert(segs[oi].owns(b));
        assert(segs[oj].owns(b));
    }
    lemma_sums_update(segs, v, shrunk);
    assert(after.drop_last() =~= segs.update(v, shrunk));
}

/// Which bytes a range owns does not depend on how far it has come.
pub proof fn counters_do_not_matter(segs: Seq<Seg>, after: Seq<Seg>, total: int)
    requires
        after.len() == segs.len(),
        forall|i: int|
            0 <= i < segs.len() ==> (#[trigger] after[i]).start == segs[i].start && after[i].end
                == segs[i].end,
    ensures
        tiles(segs, total) ==> tiles(after, total),
{
    if tiles(segs, total) {
        assert forall|b: int| 0 <= b < total <==> #[trigger] owned(after, b) by {
            if owned(segs, b) {
                let j = choose|j: int| 0 <= j < segs.len() && (#[trigger] segs[j]).owns(b);
                assert(after[j].owns(b));
            }
            if owned(after, b) {
                let j = choose|j: int| 0 <= j < after.len() && (#[trigger] after[j]).owns(b);
                assert(segs[j].owns(b));
            }
        }
        assert forall|x: int, y: int, b: int|
            0 <= x < after.len() && 0 <= y < after.len() && (#[trigger] after[x].owns(b)) && (
            #[trigger] after[y].owns(b)) implies x == y by {
            assert(segs[x].owns(b));
            assert(segs[y].owns(b));
        }
    }
}

/// Once every range has received all it spans, the ranges together have
/// received as many bytes as they span.
pub proof fn complete_ranges_add_up(segs: Seq<Seg>)
    requires
        forall|i: int| 0 <= i < segs.len() ==> (#[trigger] segs[i]).done == segs[i].span(),
    ensures
        total_done(segs) == total_span(segs),
    decreases segs.len(),
{
    if segs.len() > 0 {
        complete_ranges_add_up(segs.drop_last());
    }
}

/// The range can be worked on without outgrowing a `u64`: neither its length
/// nor the byte behind what it received does.
pub open spec fn is_usable(s: Seg) -> bool {
    s.span() <= u64::MAX && s.start + s.done <= u64::MAX
}

/// Whether every range can be worked on.
pub fn all_usable(segs: &Vec<Seg>) -> (r: bool)
    ensures
        r == forall|i: int| 0 <= i < segs@.len() ==> is_usable(#[trigger] segs@[i]),
{
    let mut i: usize = 0;
    while i < segs.len()
        invariant
            i <= segs@.len(),
            forall|j: int| 0 <= j < i ==> is_usable(#[trigger] segs@[j]),
        decreases segs@.len() - i,
    {
        let s: Seg = segs[i];
        if s.start == 0 && s.end == u64::MAX || s.done > u64::MAX - s.start {
            assert(!is_usable(segs@[i as int]));
            return false;
        }
        i = i + 1;
    }
    true
}

/// Every range with what never reached the disk forgotten.
pub open spec fn rewound(segs: Seq<Seg>) -> Seq<Seg> {
    segs.map_values(|s: Seg| Seg { done: s.flushed, ..s })
}

/// The bytes on disk in all ranges together.
pub open spec fn total_flushed(segs: Seq<Seg>) -> int
    decreases segs.len(),
{
    if segs.len() == 0 {
        0
    } else {
        total_flushed(segs.drop_last()) + segs.last().flushed
    }
}

/// Forgets in every range what never reached the disk, and returns how many
/// bytes did.
pub fn rewind_all(segs: &mut Vec<Seg>) -> (r: u64)
    requires
        total_flushed(old(segs)@) <= u64::MAX,
    ensures
        final(segs)@ == rewound(old(segs)@),
        r == total_flushed(old(segs)@),
{
    let ghost before = segs@;
    let mut sum: u64 = 0;
    let mut i: usize = 0;
    assert(before.take(0) =~= Seq::empty());
    while i < segs.len()
        invariant
            segs@.len() == before.len(),
            i <= segs@.len(),
            segs@ =~= rewound(before).take(i as int) + before.skip(i as int),
            sum == total_flushed(before.take(i as int)),
            total_flushed(before) <= u64::MAX,
        decreases segs@.len() - i,
    {
        let mut s: Seg = segs[i];
        assert(s == before[i as int]);
        assert(before.take(i + 1).drop_last() =~= before.take(i as int));
        proof {
            lemma_flushed_grows(before, i + 1);
        }
        let _ = s.rewind();
        segs.set(i, s);
        sum = sum + s.done;
        assert(rewound(before)[i as int] == s);
        i = i + 1;
    }
    assert(before.take(i as int) =~= before);
    assert(segs@ =~= rewound(before));
    sum
}

proof fn lemma_flushed_grows(segs: Seq<Seg>, i: int)
    requires
        0 <= i <= segs.len(),
    ensures
        0 <= total_flushed(segs.take(i)) <= total_flushed(segs),
    decreases segs.len() - i,
{
    if i < segs.len() {
        lemma_flushed_grows(segs, i + 1);
        assert(segs.take(i + 1).drop_last() =~= segs.take(i));
    } else {
        assert(segs.take(i) =~= segs);
    }
    lemma_flushed_positive(segs.take(i));
}

proof fn lemma_flushed_positive(segs: Seq<Seg>)
    ensures
        total_flushed(segs) >= 0,
    decreases segs.len(),
{
    if segs.len() > 0 {
        lemma_flushed_positive(segs.drop_last());
    }
}

/// The sum of what is on disk, if a `u64` can hold it.
pub fn sum_flushed(segs: &Vec<Seg>) -> (r: Option<u64>)
    ensures
        match r {
            Some(n) => n == total_flushed(segs@),
            None => total_flushed(segs@) > u64::MAX,
        },
{
    let mut sum: u64 = 0;
    let mut i: usize = 0;
    assert(segs@.take(0) =~= Seq::empty());
    while i < segs.len()
        invariant
            i <= segs@.len(),
            sum == total_flushed(segs@.take(i as int)),
        decreases segs@.len() - i,
    {
        assert(segs@.take(i + 1).drop_last() =~= segs@.take(i as int));
        let n: u64 = segs[i].flushed;
        if n > u64::MAX - sum {
            proof {
                lemma_flushed_grows(segs@, i + 1);
            }
            return None;
        }
        sum = sum + n;
        i = i + 1;
    }
    assert(segs@.take(i as int) =~= segs@);
    Some(sum)
}

/// What a range misses is what it has not received of the bytes from its first
/// to its last; one whose end lies before its start counts as one byte.
pub proof fn what_came_and_what_is_left_make_the_range(s: Seg)
    ensures
        s.start <= s.end ==> {
            &&& s.span() == s.end - s.start + 1
            &&& s.done <= s.span() ==> s.done + s.left() == s.end - s.start + 1
            &&& s.done >= s.end - s.start + 1 <==> s.left() == 0
            &&& forall|b: int| #[trigger] s.owns(b) <==> s.start <= b < s.start + s.span()
        },
        s.start > s.end ==> {
            &&& s.span() == 1
            &&& s.left() == if s.done == 0 { 1int } else { 0 }
            &&& forall|b: int| !#[trigger] s.owns(b)
        },
{
}

/// A range can be worked on unless it spans more bytes than can be counted, or
/// what it received ends behind the last byte that can be.
pub proof fn ranges_that_can_be_counted_are_usable(s: Seg)
    requires
        s.start <= s.end,
    ensures
        is_usable(s) <==> s.end - s.start < u64::MAX && s.start + s.done <= u64::MAX,
        is_usable(s) ==> all_countable(seq![s]),
{
}

/// A file is cut into as many ranges as are allowed if it is large enough for
/// that, and otherwise into as many as have the smallest size each; never into
/// none.
pub proof fn as_many_ranges_as_fit(len: int, max_parts: int, min_size: int)
    requires
        len >= 1,
        max_parts >= 1,
        min_size >= 1,
    ensures
        ({
            let n = parts(len, max_parts, min_size);
            &&& 1 <= n <= max_parts
            &&& len >= max_parts * min_size ==> n == max_parts
            &&& n == 1 || n * min_size <= len
            &&& n == max_parts || len < (n + 1) * min_size
        }),
{
    let n = parts(len, max_parts, min_size);
    let q = len / min_size;
    assert(q * min_size <= len < (q + 1) * min_size) by (nonlinear_arith)
        requires
            min_size >= 1,
            q == len / min_size,
            len >= 1,
    ;
    assert(n <= q ==> n * min_size <= q * min_size) by (nonlinear_arith)
        requires
            min_size >= 1,
    ;
    assert(q <= n ==> (q + 1) * min_size <= (n + 1) * min_size) by (nonlinear_arith)
        requires
            min_size >= 1,
    ;
    assert(q < max_parts ==> (q + 1) * min_size <= max_parts * min_size) by (nonlinear_arith)
        requires
            min_size >= 1,
    ;
    assert(1 * min_size == min_size) by (nonlinear_arith);
}

/// The ranges of a file are of one size, but for the last, which takes what
/// does not divide: fewer bytes than there are ranges. They follow each other
/// from the first byte to the last.
pub proof fn ranges_are_of_one_size(len: u64, max_parts: u64, min_size: u64, i: int)
    requires
        len >= 1,
        max_parts >= 1,
        min_size >= 1,
        0 <= i < parts(len as int, max_parts as int, min_size as int),
    ensures
        ({
            let n = parts(len as int, max_parts as int, min_size as int);
            let size = |k: int|
                part_bounds(len as int, n, k).1 - part_bounds(len as int, n, k).0 + 1;
            &&& part_bounds(len as int, n, 0).0 == 0
            &&& part_bounds(len as int, n, n - 1).1 == len - 1
            &&& i + 1 < n ==> part_bounds(len as int, n, i).1 + 1 == part_bounds(
                len as int,
                n,
                i + 1,
            ).0
            &&& i + 1 < n ==> size(i) == size(0)
            &&& size(0) <= size(n - 1) < size(0) + n
            &&& n > 1 ==> size(i) >= min_size
        }),
{
    let n = parts(len as int, max_parts as int, min_size as int);
    let base = len as int / n;
    lemma_parts_fit(len as int, max_parts as int, min_size as int, i);
    lemma_parts_fit(len as int, max_parts as int, min_size as int, 0);
    lemma_parts_fit(len as int, max_parts as int, min_size as int, n - 1);
    as_many_ranges_as_fit(len as int, max_parts as int, min_size as int);
    assert(0 * base == 0 && 1 * base == base) by (nonlinear_arith);
    assert(n * base <= len < n * base + n) by (nonlinear_arith)
        requires
            n >= 1,
            base == len as int / n,
    ;
    assert((n - 1 + 1) * base == (n - 1) * base + base) by (nonlinear_arith);
    if i + 1 < n {
        lemma_parts_fit(len as int, max_parts as int, min_size as int, i + 1);
        assert((i + 1) * base == i * base + base) by (nonlinear_arith);
    }
    if n > 1 {
        assert(base >= min_size) by (nonlinear_arith)
            requires
                n > 1,
                n * min_size <= len,
                base == len as int / n,
        ;
    }
}

/// A range is taken from that misses the most, the last of several that do, and
/// only if that is four megabytes or more; where a range misses so much, there
/// is one to take from.
pub proof fn the_slowest_range_is_taken_from(segs: Seq<Seg>, v: int)
    ensures
        is_victim(segs, v) ==> 0 <= v < segs.len() && segs[v].left() >= 4 * 1024 * 1024,
        is_victim(segs, v) ==> forall|i: int|
            0 <= i < segs.len() ==> (#[trigger] segs[i]).left() <= segs[v].left() && (i > v
                ==> segs[i].left() < segs[v].left()),
        (exists|i: int| 0 <= i < segs.len() && (#[trigger] segs[i]).left() >= 4 * 1024 * 1024)
            ==> exists|w: int| #[trigger] is_victim(segs, w),
{
    if exists|i: int| 0 <= i < segs.len() && (#[trigger] segs[i]).left() >= 4 * 1024 * 1024 {
        let i = choose|i: int|
            0 <= i < segs.len() && (#[trigger] segs[i]).left() >= 4 * 1024 * 1024;
        let w = lemma_most(segs, segs.len() as int);
        assert(segs[i].left() <= segs[w].left());
        assert(is_victim(segs, w));
    }
}

/// Of some ranges one misses the most, and the later ones less than it.
proof fn lemma_most(segs: Seq<Seg>, k: int) -> (w: int)
    requires
        0 < k <= segs.len(),
    ensures
        0 <= w < k,
        forall|i: int|
            0 <= i < k ==> (#[trigger] segs[i]).left() <= segs[w].left() && (i > w
                ==> segs[i].left() < segs[w].left()),
    decreases k,
{
    if k == 1 {
        0
    } else {
        let u = lemma_most(segs, k - 1);
        if segs[k - 1].left() >= segs[u].left() {
            k - 1
        } else {
            u
        }
    }
}

/// Stealing halves the work: what one range missed, it and the new one miss
/// together, and neither misses over a byte more than the other. The new range
/// has received nothing, and the others are left alone.
pub proof fn stealing_halves_the_work(segs: Seq<Seg>, v: int)
    requires
        is_victim(segs, v),
    ensures
        ({
            let after = halved(segs, v);
            let n = segs.len() as int;
            &&& after.len() == n + 1
            &&& after[v].left() + after[n].left() == segs[v].left()
            &&& after[n].left() <= after[v].left() <= after[n].left() + 1
            &&& after[v].start == segs[v].start && after[n].end == segs[v].end
            &&& after[v].end + 1 == after[n].start
            &&& after[n].done == 0 && after[n].flushed == 0
            &&& forall|i: int| 0 <= i < n && i != v ==> #[trigger] after[i] == segs[i]
        }),
{
}

/// Sums over ranges are sums: of no range nothing, of one what it counts, and
/// of two lists what each gives.
pub proof fn sums_are_sums(a: Seq<Seg>, b: Seq<Seg>, s: Seg)
    ensures
        total_span(seq![s]) == s.span() && total_done(seq![s]) == s.done && total_flushed(seq![s])
            == s.flushed,
        total_span(a + b) == total_span(a) + total_span(b),
        total_done(a + b) == total_done(a) + total_done(b),
        total_flushed(a + b) == total_flushed(a) + total_flushed(b),
    decreases b.len(),
{
    let none = Seq::<Seg>::empty();
    assert(seq![s].drop_last() =~= none);
    assert(total_span(none) == 0 && total_done(none) == 0 && total_flushed(none) == 0);
    if b.len() == 0 {
        assert(a + b =~= a);
    } else {
        sums_are_sums(a, b.drop_last(), s);
        assert((a + b).drop_last() =~= a + b.drop_last());
    }
}

/// What is forgotten of a range is what never reached the disk, and nothing
/// else of it changes.
pub proof fn only_what_is_on_disk_is_kept(segs: Seq<Seg>, i: int)
    requires
        0 <= i < segs.len(),
    ensures
        rewound(segs).len() == segs.len(),
        rewound(segs)[i].done == segs[i].flushed,
        rewound(segs)[i].flushed == segs[i].flushed,
        rewound(segs)[i].start == segs[i].start,
        rewound(segs)[i].end == segs[i].end,
{
}

/// A range is well formed if it has a byte at least, has received no more than
/// it spans, and flushed no more than it received. Ranges start well formed,
/// where they were cut, with nothing received.
pub proof fn ranges_start_well_formed(s: Seg, bounds: Seq<(u64, u64)>, i: int)
    ensures
        s.well_formed() <==> s.start <= s.end && s.flushed <= s.done && s.done <= s.end - s.start
            + 1,
        fresh(bounds).len() == bounds.len(),
        0 <= i < bounds.len() ==> fresh(bounds)[i].start == bounds[i].0 && fresh(bounds)[i].end
            == bounds[i].1 && fresh(bounds)[i].done == 0 && fresh(bounds)[i].flushed == 0,
        all_countable(seq![s]) <==> s.end < u64::MAX || s.start > 0,
{
    if all_countable(seq![s]) {
        assert(seq![s][0].span() <= u64::MAX);
    }
}

} // verus!
