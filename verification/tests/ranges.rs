//! Ranges, gate, limiter and queue.

use mdm::engine::{Seg, MAX_CONNECTIONS};
use mdm::gate::Gate;
use mdm::limiter::{Limiter, BILLION};
use mdm::queue::{Queue, Slot, Turn};
use mdm::segment::{all_usable, rewind_all, split_segments, steal_segment, sum_flushed, MIN_SEGMENT, STEAL_MIN};

const SEC: u64 = 1_000_000_000;

#[test]
fn split_covers_everything() {
    for len in [1u64, 100, MIN_SEGMENT * 2, MIN_SEGMENT * 8 + 3, MIN_SEGMENT * 100] {
        let parts = split_segments(len, MAX_CONNECTIONS, MIN_SEGMENT);
        assert!(parts.len() <= MAX_CONNECTIONS as usize);
        assert_eq!(parts[0].0, 0);
        assert_eq!(parts.last().unwrap().1, len - 1);
        for w in parts.windows(2) {
            assert_eq!(w[0].1 + 1, w[1].0); // no gap
        }
    }
}

#[test]
fn split_gives_the_rest_to_the_last() {
    assert_eq!(split_segments(10, 3, 2), vec![(0, 2), (3, 5), (6, 9)]);
    assert_eq!(split_segments(10, 3, 100), vec![(0, 9)]);
}

#[test]
fn steal_splits_biggest() {
    let mb = 1024 * 1024;
    let a = Seg::new(0, 100 * mb - 1, 10 * mb); // 90 MB left
    let b = Seg::new(100 * mb, 110 * mb - 1, 0); // 10 MB left
    let mut segs = vec![a, b];
    let t = steal_segment(&mut segs).expect("there is something to take");
    let a = segs[0];
    // the upper half of a, with no gap between
    assert_eq!(t.end(), 100 * mb - 1);
    assert_eq!(a.end() + 1, t.start);
    assert!(t.len() >= STEAL_MIN);
    assert!(a.remaining() >= STEAL_MIN);
    assert_eq!(segs.len(), 3);
    assert_eq!(segs[2], t);
}

#[test]
fn steal_leaves_small_segments_alone() {
    let a = Seg::new(0, STEAL_MIN * 2 - 2, 0); // just too little left
    let mut segs = vec![a];
    assert!(steal_segment(&mut segs).is_none());
    assert_eq!(segs.len(), 1);
}

#[test]
fn steal_takes_the_last_of_equals() {
    let n = STEAL_MIN * 4;
    let mut segs = vec![Seg::new(0, n - 1, 0), Seg::new(n, 2 * n - 1, 0)];
    let t = steal_segment(&mut segs).unwrap();
    assert_eq!((t.start, t.end), (n + n / 2, 2 * n - 1));
    assert_eq!(segs[0].end, n - 1);
    let bytes: u64 = segs.iter().map(|s| s.len()).sum();
    assert_eq!(bytes, 2 * n);
}

#[test]
fn flushed_trails_done() {
    let mut s = Seg::new(0, 999, 0);
    s.done = 500;
    // nothing flushed: the safe offset has not moved
    assert_eq!(s.flushed, 0);
    s.mark_flushed();
    assert_eq!(s.flushed, 500);
    // what comes back from disk has both at the same place
    let restored = Seg::new(0, 999, 500);
    assert_eq!(restored.done, restored.flushed);
}

#[test]
fn rewinding_forgets_what_was_not_flushed() {
    let mut s = Seg::new(10, 1009, 100);
    s.done = 350;
    assert_eq!(s.rewind(), 250);
    assert_eq!(s.done, 100);
    let mut segs = vec![Seg { done: 9, ..Seg::new(0, 9, 4) }, Seg::new(10, 19, 3)];
    assert_eq!(sum_flushed(&segs), Some(7));
    assert_eq!(rewind_all(&mut segs), 7);
    assert_eq!((segs[0].done, segs[1].done), (4, 3));
    assert_eq!(sum_flushed(&vec![Seg::new(0, 1, u64::MAX), Seg::new(0, 1, 1)]), None);
}

#[test]
fn impossible_ranges_are_noticed() {
    assert!(all_usable(&vec![Seg::new(0, 9, 10)]));
    assert!(!all_usable(&vec![Seg::new(0, u64::MAX, 0)]));
    assert!(!all_usable(&vec![Seg::new(u64::MAX, u64::MAX, 1)]));
}

#[test]
fn gate_aimd() {
    let mut g = Gate::new(8, 8, 0);
    assert_eq!(g.shrink(0), 4);
    assert_eq!(g.shrink(0), 2);
    assert_eq!(g.shrink(0), 1);
    assert_eq!(g.shrink(0), 1); // never below one
    assert!(g.enter()); // takes the only place
    assert!(!g.enter(), "with one place the second has to wait");
    assert!(!g.has_room());
    g.leave();
    assert!(g.enter(), "after leave() the place is free");
}

#[test]
fn gate_grow() {
    let mut g = Gate::new(8, 8, 0);
    assert_eq!(g.shrink(0), 4);
    // not quiet for long enough: no growth
    assert_eq!(g.maybe_grow(3600 * SEC, 0), None);
    assert_eq!(g.maybe_grow(0, 0), Some(5));
    assert_eq!(g.maybe_grow(0, 0), Some(6));
    assert_eq!(g.maybe_grow(0, 0), Some(7));
    assert_eq!(g.maybe_grow(0, 0), Some(8));
    assert_eq!(g.maybe_grow(0, 0), None); // never above the ceiling
}

#[test]
fn gate_respects_configured_cap() {
    let mut g = Gate::new(8, 2, 0);
    assert_eq!(g.max(), 2, "the start is moved below the ceiling");
    assert_eq!(g.shrink(0), 1);
    assert_eq!(g.maybe_grow(0, 0), Some(2));
    assert_eq!(g.maybe_grow(0, 0), None);
    assert_eq!(Gate::new(0, 0, 0).max(), 1);
    assert_eq!(Gate::new(99, 99, 0).cap(), 16);
}

#[test]
fn gate_growth_waits_for_quiet() {
    let mut g = Gate::new(4, 8, 0);
    assert_eq!(g.maybe_grow(45 * SEC, 45 * SEC - 1), None);
    assert_eq!(g.maybe_grow(45 * SEC, 45 * SEC), Some(5));
    // growing counts as a move
    assert_eq!(g.maybe_grow(45 * SEC, 46 * SEC), None);
}

#[test]
fn unlimited_never_waits() {
    let mut l = Limiter::new(0, 0);
    assert_eq!(l.try_take(10 * 1024 * 1024, 0), 0);
}

#[test]
fn burst_then_throttle() {
    // 100 KB/s: half a second is 50 KB at most
    let mut l = Limiter::new(100, 0);
    // the bucket starts empty: the first request has to wait
    assert!(l.try_take(50 * 1024, 0) > 0);
    // a second later it holds 50 KB
    assert_eq!(l.try_take(50 * 1024, SEC), 0, "the burst has to pass");
    // and then nothing
    assert!(l.try_take(50 * 1024, SEC) > 0);
}

#[test]
fn average_rate_matches_the_limit() {
    let mut l = Limiter::new(64, 0); // 64 KB/s
    let mut now = 0;
    // 256 KB in blocks of 16 KB: about 4 seconds at 64 KB/s
    for _ in 0..16 {
        now = acquire(&mut l, 16 * 1024, now);
    }
    let elapsed = now as f64 / SEC as f64;
    assert!((3.0..5.5).contains(&elapsed), "out of scale: {elapsed}s");
    // the bucket started empty, so it is exactly what the limit says
    assert_eq!(now, 4 * SEC);
}

#[test]
fn raising_the_limit_takes_effect_immediately() {
    let mut l = Limiter::new(1, 0);
    assert!(l.try_take(64 * 1024, 0) > 0);
    l.set_limit(0); // no limit any more
    assert_eq!(l.try_take(64 * 1024, 0), 0);
    assert_eq!(l.limit_kbps(), 0);
}

#[test]
fn a_wait_is_as_long_as_needed() {
    let mut l = Limiter::new(1, 0); // 1024 bytes per second
    assert_eq!(l.try_take(1, 0), 976_563); // one byte, rounded up
    assert_eq!(l.try_take(512, 0), SEC / 2);
    assert_eq!(l.try_take(4096, 0), BILLION); // a second at most
    assert_eq!(l.try_take(512, SEC / 2), 0);
}

/// Waits until `n` bytes have passed, and tells when that is.
fn acquire(l: &mut Limiter, n: u64, start: u64) -> u64 {
    let (mut left, mut now) = (n, start);
    loop {
        let (rest, wait) = l.acquire(left, now);
        if wait == 0 {
            assert_eq!(rest, 0);
            return now;
        }
        assert!(rest <= left);
        left = rest;
        now += wait;
    }
}

#[test]
fn chunks_larger_than_the_bucket_pass_in_portions() {
    // 1 KB/s: the bucket holds 512 bytes, and the chunk is eight times that
    let mut l = Limiter::new(1, 0);
    assert_eq!(l.portion(4096), 512);
    assert_eq!(l.portion(100), 100);
    assert_eq!(acquire(&mut l, 4096, 0), 4 * SEC);
    // a full bucket takes its part at once
    assert_eq!(l.acquire(1024, 5 * SEC), (512, SEC / 2));
    assert_eq!(l.acquire(512, 5 * SEC + SEC / 2), (0, 0));
    // a size that is no multiple of the bucket
    let mut l = Limiter::new(3, 0);
    assert_eq!(l.portion(16 * 1024), 3 * 512);
    let end = acquire(&mut l, 16 * 1024, 0);
    assert!((16 * SEC / 3..16 * SEC / 3 + 11).contains(&end), "{end}");
    // a request for nothing fills the bucket like any other
    let mut l = Limiter::new(1, 0);
    assert_eq!(l.acquire(0, SEC / 4), (0, 0));
    l.set_limit(1000);
    assert_eq!(l.acquire(256, SEC / 4), (0, 0));
    assert!(l.acquire(1, SEC / 4).1 > 0);
    // no limit: everything at once
    l.set_limit(0);
    assert_eq!(l.portion(u64::MAX), u64::MAX);
    assert_eq!(l.acquire(u64::MAX, 0), (0, 0));
    l.set_limit(u64::MAX);
    assert_eq!(l.portion(u64::MAX), u64::MAX);
}

fn granted(t: Turn) -> Slot {
    match t {
        Turn::Granted(s) => s,
        other => panic!("no turn: {other:?}"),
    }
}

#[test]
fn only_limit_run_at_once() {
    let mut q = Queue::default();
    q.set_limit(2);
    let t0 = q.ticket();
    let t1 = q.ticket();
    let t2 = q.ticket();
    let s0 = granted(q.enter(t0, false));
    let s1 = granted(q.enter(t1, false));
    assert_eq!(q.active(), 2);
    // the third stays outside until one of the two is over
    assert!(matches!(q.enter(t2, false), Turn::Wait), "with a limit of two the third has to wait");
    assert_eq!(q.position(t2), 0, "it is the next all the same");
    q.leave(s0);
    let s2 = granted(q.enter(t2, false));
    assert_eq!(s2.ticket(), t2);
    q.leave(s1);
    q.leave(s2);
    assert_eq!(q.active(), 0);
}

#[test]
fn order_is_fifo() {
    let mut q = Queue::default();
    q.set_limit(1);
    let t0 = q.ticket();
    let t1 = q.ticket();
    let t2 = q.ticket();
    assert_eq!(q.position(t0), 0);
    assert_eq!(q.position(t2), 2);
    let s0 = granted(q.enter(t0, false));
    // t2 cannot pass t1 even when there is room
    q.leave(s0);
    assert!(matches!(q.enter(t2, false), Turn::Wait), "t2 must not pass t1");
    let s1 = granted(q.enter(t1, false));
    q.leave(s1);
    granted(q.enter(t2, false));
}

#[test]
fn abort_while_queued_does_not_stall_the_queue() {
    let mut q = Queue::default();
    q.set_limit(1);
    let t0 = q.ticket();
    let t1 = q.ticket();
    let t2 = q.ticket();
    let s0 = granted(q.enter(t0, false));
    // t1 is cancelled while it waits: t2 must not be stuck
    assert!(matches!(q.enter(t1, true), Turn::GivenUp));
    q.leave(s0);
    granted(q.enter(t2, false));
}

#[test]
fn abort_in_the_middle_does_not_stall_the_queue() {
    let mut q = Queue::default();
    q.set_limit(1);
    let t: Vec<u64> = (0..5).map(|_| q.ticket()).collect();
    let s0 = granted(q.enter(t[0], false));
    // the second and third in line give up, in reverse
    q.give_up(t[3]);
    q.give_up(t[2]);
    q.give_up(t[2]);
    assert_eq!(q.position(t[4]), 1);
    q.leave(s0);
    let s1 = granted(q.enter(t[1], false));
    assert_eq!(q.position(t[4]), 0);
    q.leave(s1);
    granted(q.enter(t[4], false));
}

#[test]
fn raising_the_limit_wakes_waiters() {
    let mut q = Queue::default();
    q.set_limit(1);
    let t0 = q.ticket();
    let t1 = q.ticket();
    let _s0 = granted(q.enter(t0, false));
    assert!(matches!(q.enter(t1, false), Turn::Wait));
    q.set_limit(2); // the slider is moved meanwhile
    granted(q.enter(t1, false));
    q.set_limit(0); // never below one
    let t2 = q.ticket();
    assert!(matches!(q.enter(t2, false), Turn::Wait));
}
