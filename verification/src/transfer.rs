//! Fetching a file: the decisions between one network event and the next.
//!
//! A connection works on one range of the file at a time. It asks for the
//! bytes that are missing, writes what comes, and records how much of that has
//! safely reached the disk. When it fails it starts again at the last byte on
//! disk; when it is done it takes the next range, or half of somebody else's.

use crate::download::{self, Download};
use crate::foreign;
use crate::gate::{Gate, RAMP_QUIET};
use crate::num;
use crate::probe::{self, Field, Remote};
use crate::segment::{self, Seg};
use crate::sidecar;
use crate::text::{self, Class};
use crate::ui;
use std::collections::VecDeque;
use vstd::prelude::*;
use vstd::string::*;

verus! {

/// So many bytes may wait in the write buffer before they are flushed: a
/// crash loses no more.
pub const FLUSH_EVERY: u64 = 4 * 1024 * 1024;

/// Failures in a row, without a byte received, before a range is given up.
pub const SEGMENT_RETRIES: u32 = 8;

/// Refusals in a row, without a byte received, before a range is given up.
pub const BUSY_RETRIES: u32 = 12;

/// The longest wait after a refusal, in seconds.
pub const LONGEST_NAP: u64 = 30;

/// Why a connection failed.
#[derive(Debug)]
pub enum SegErr {
    /// The server is too busy. It may say when to come back, in seconds.
    RateLimited(Option<u64>),
    /// The file on the server is no longer the one that was begun: going on
    /// would sew two versions together.
    Changed,
    Other(String),
}

/// Where a connection is in its range.
#[derive(Debug, Clone, Copy, PartialEq, Eq, Structural)]
pub struct Fetch {
    /// The byte of the file that comes next.
    pub pos: u64,
    /// Bytes written since the last flush.
    pub since_flush: u64,
}

/// What to ask the server for.
#[derive(Debug)]
pub struct RangeRequest {
    /// The first byte, to which the file is to be wound.
    pub start: u64,
    /// The value of the `Range` header.
    pub range: String,
    /// The value of the `If-Range` header, if one is to be sent: with it, a
    /// server whose file has changed sends the whole file instead of a part.
    pub if_range: Option<String>,
}

impl Fetch {
    /// The connection writes right behind the bytes that its range counts as
    /// received, and knows how many of them are not flushed.
    pub open spec fn tracks(self, seg: Seg) -> bool {
        &&& self.pos == seg.start + seg.done
        &&& seg.done - seg.flushed == self.since_flush
    }
}

/// The text of a range: `bytes=0-99`.
pub open spec fn range_text(start: int, end: int) -> Seq<char> {
    "bytes="@ + text::decimal(start as nat) + "-"@ + text::decimal(end as nat)
}

/// The text may be the value of a header.
pub open spec fn is_header(s: Seq<char>) -> bool {
    forall|i: int| 0 <= i < s.len() ==> foreign::fits_header(#[trigger] s[i])
}

/// Begins to fetch what range `i` still misses: `None` if that is nothing.
pub fn begin_fetch(dl: &Download, i: usize) -> (r: Option<(Fetch, RangeRequest)>)
    requires
        i < dl.segs@.len(),
        dl.segs@[i as int].start + dl.segs@[i as int].done <= u64::MAX,
    ensures
        ({
            let seg = dl.segs@[i as int];
            let start = seg.start + seg.done;
            match r {
                None => start > seg.end,
                Some((f, q)) => {
                    &&& start <= seg.end
                    &&& f == (Fetch { pos: start as u64, since_flush: 0 })
                    &&& seg.done == seg.flushed ==> f.tracks(seg)
                    &&& q.start == start
                    &&& q.range@ == range_text(start, seg.end as int)
                    &&& probe::opt_view(q.if_range) == match dl.validator {
                        Some(v) if is_header(v@) => Some(v@),
                        _ => None,
                    }
                },
            }
        }),
{
    let seg: Seg = dl.segs[i];
    let start: u64 = seg.start + seg.done;
    if start > seg.end {
        return None;
    }
    let mut range: String = text::join("bytes=", text::number(start).as_str());
    range.append("-");
    range.append(text::number(seg.end).as_str());
    let if_range = match &dl.validator {
        Some(v) => if foreign::is_header_value(v.as_str()) { Some(v.clone()) } else { None },
        None => None,
    };
    Some((Fetch { pos: start, since_flush: 0 }, RangeRequest { start, range, if_range }))
}

/// How long the server says to wait: the header's number of seconds.
pub open spec fn retry_after_of(f: Field) -> Option<nat> {
    match f.value() {
        Some(v) => text::parsed(text::trim(v, Class::White), u64::MAX as nat),
        None => None,
    }
}

/// Judges the answer to a range request: `None` if the bytes follow. Where the
/// request could tell the server which version of the file it wants, the
/// whole file instead of a part means that the version is gone.
pub fn judge_reply(status: u16, retry_after: &Field, has_validator: bool) -> (r: Option<SegErr>)
    ensures
        match r {
            None => status == 206,
            Some(SegErr::RateLimited(after)) => status == 429 && probe::opt_nat(after)
                == retry_after_of(*retry_after),
            Some(SegErr::Changed) => status == 200 && has_validator,
            Some(SegErr::Other(e)) => {
                &&& status != 206 && status != 429
                &&& !(status == 200 && has_validator)
                &&& e@ == "range rifiutato dal server (status "@ + probe::status_text(status) + ")"@
            },
        },
{
    if status == 429 {
        let after = match retry_after {
            Field::Text(s) => text::parse_u64(
                &text::strip(&text::to_chars(s.as_str()), Class::White),
            ),
            _ => None,
        };
        return Some(SegErr::RateLimited(after));
    }
    if status == 206 {
        return None;
    }
    if status == 200 && has_validator {
        return Some(SegErr::Changed);
    }
    let mut e: String = text::join(
        "range rifiutato dal server (status ",
        probe::show_status(status).as_str(),
    );
    e.append(")");
    Some(SegErr::Other(e))
}

/// What a connection hears while it waits for bytes.
#[derive(Debug)]
pub enum Heard {
    /// The download was paused, cancelled or given up.
    Interrupted,
    /// Nothing came for too long.
    Stalled,
    /// The server ended the answer.
    Closed,
    /// The connection broke, for the reason given.
    Broken(String),
    /// So many bytes came.
    Chunk(u64),
}

/// What a connection does next.
#[derive(Debug)]
pub enum Step {
    /// Write so many of the bytes that came, then call [`wrote`].
    Write(u64),
    /// Flush, then call [`seal`].
    Seal,
    /// Flush, then call [`abandon`] with this reason.
    Abandon(String),
}

/// Decides what to do with what was heard. Of the bytes that came only those
/// in the range are written: it may have become shorter, and the rest belongs
/// to another connection now.
pub fn next_step(f: &Fetch, seg: &Seg, heard: Heard) -> (r: Step)
    requires
        seg.start <= f.pos,
        seg.span() <= u64::MAX,
    ensures
        match heard {
            Heard::Interrupted => r matches Step::Abandon(e) && e@ == "interrotto"@,
            Heard::Stalled => r matches Step::Abandon(e) && e@
                == "stallo: nessun dato per 30s, riconnetto"@,
            Heard::Broken(why) => r matches Step::Abandon(e) && e@ == "stream interrotto: "@ + why@,
            Heard::Closed => r is Seal,
            Heard::Chunk(n) => if f.pos > seg.end {
                r is Seal
            } else {
                r == Step::Write(num::min_of(n as int, seg.end - f.pos + 1) as u64)
            },
        },
{
    match heard {
        Heard::Interrupted => Step::Abandon(text::owned("interrotto")),
        Heard::Stalled => Step::Abandon(text::owned("stallo: nessun dato per 30s, riconnetto")),
        Heard::Broken(why) => Step::Abandon(text::join("stream interrotto: ", why.as_str())),
        Heard::Closed => Step::Seal,
        Heard::Chunk(n) => if f.pos > seg.end {
            Step::Seal
        } else {
            let room: u64 = seg.end - f.pos + 1;
            Step::Write(if n <= room { n } else { room })
        },
    }
}

/// What follows a write.
#[derive(Debug, Clone, Copy, PartialEq, Eq, Structural)]
pub struct Wrote {
    /// Enough has gathered: flush, and call [`flushed`].
    pub flush: bool,
    /// The range may go on; otherwise it ends here: flush, and call [`seal`].
    pub more: bool,
}

/// The range with `n` more bytes received.
pub open spec fn grown(s: Seg, n: u64) -> Seg {
    Seg { done: (s.done + n) as u64, ..s }
}

/// The range with everything that it received flushed.
pub open spec fn all_flushed(s: Seg) -> Seg {
    Seg { flushed: s.done, ..s }
}

/// Records that `take` of the `chunk` bytes that came were written.
pub fn wrote(f: &mut Fetch, dl: &mut Download, i: usize, take: u64, chunk: u64) -> (r: Wrote)
    requires
        i < old(dl).segs@.len(),
        take <= chunk,
        old(dl).segs@[i as int].done + take <= u64::MAX,
        old(dl).done + take <= u64::MAX,
        old(f).pos + take <= u64::MAX,
        old(f).since_flush + take <= u64::MAX,
    ensures
        ({
            let seg = old(dl).segs@[i as int];
            let after = grown(seg, take);
            &&& *final(dl) == (Download {
                segs: final(dl).segs,
                done: (old(dl).done + take) as u64,
                ..*old(dl)
            })
            &&& final(dl).segs@ == old(dl).segs@.update(i as int, after)
            &&& *final(f) == (Fetch {
                pos: (old(f).pos + take) as u64,
                since_flush: (old(f).since_flush + take) as u64,
            })
            &&& old(f).tracks(seg) ==> final(f).tracks(after)
        }),
        r.flush == (final(f).since_flush >= FLUSH_EVERY),
        r.more == (take == chunk),
{
    let seg: Seg = dl.segs[i];
    dl.segs.set(i, Seg { done: seg.done + take, ..seg });
    dl.done = dl.done + take;
    f.pos = f.pos + take;
    f.since_flush = f.since_flush + take;
    Wrote { flush: f.since_flush >= FLUSH_EVERY, more: take == chunk }
}

/// Records that everything written was flushed.
pub fn flushed(f: &mut Fetch, dl: &mut Download, i: usize)
    requires
        i < old(dl).segs@.len(),
    ensures
        ({
            let seg = old(dl).segs@[i as int];
            let after = all_flushed(seg);
            &&& download::with_seg(*old(dl), i as int, after, *final(dl))
            &&& *final(f) == (Fetch { since_flush: 0, ..*old(f) })
            &&& old(f).tracks(seg) ==> final(f).tracks(after)
        }),
{
    let mut seg: Seg = dl.segs[i];
    seg.mark_flushed();
    dl.segs.set(i, seg);
    f.since_flush = 0;
}

/// What came of a connection at range `i` that came to its end.
pub open spec fn sealed(before: Download, i: int, after: Download, r: Result<(), SegErr>) -> bool {
    let seg = before.segs@[i];
    &&& download::with_seg(before, i, all_flushed(seg), after)
    &&& match r {
        Ok(()) => seg.start + seg.done > seg.end,
        Err(SegErr::Other(e)) => seg.start + seg.done <= seg.end && e@
            == "connessione chiusa a metà segmento, riprendo"@,
        Err(_) => false,
    }
}

/// Ends a connection that came to its end, once everything is flushed. A
/// server may end an answer too early: that is an error, and what is missing
/// is fetched again.
pub fn seal(dl: &mut Download, i: usize) -> (r: Result<(), SegErr>)
    requires
        i < old(dl).segs@.len(),
        old(dl).segs@[i as int].start + old(dl).segs@[i as int].done <= u64::MAX,
    ensures
        sealed(*old(dl), i as int, *final(dl), r),
{
    let mut seg: Seg = dl.segs[i];
    seg.mark_flushed();
    dl.segs.set(i, seg);
    if seg.start + seg.done <= seg.end {
        Err(SegErr::Other(text::owned("connessione chiusa a metà segmento, riprendo")))
    } else {
        Ok(())
    }
}

/// Ends a connection that failed, once everything that came is flushed: the
/// next one starts from there.
pub fn abandon(dl: &mut Download, i: usize, why: String) -> (r: SegErr)
    requires
        i < old(dl).segs@.len(),
    ensures
        download::with_seg(
            *old(dl),
            i as int,
            all_flushed(old(dl).segs@[i as int]),
            *final(dl),
        ),
        r == SegErr::Other(why),
{
    let mut seg: Seg = dl.segs[i];
    seg.mark_flushed();
    dl.segs.set(i, seg);
    SegErr::Other(why)
}

/// Failures in a row without a byte received.
#[derive(Debug, Clone, Copy, PartialEq, Eq, Structural)]
pub struct Retry {
    pub attempts: u32,
    pub rl_hits: u32,
}

impl Retry {
    /// Fewer than make a connection give up.
    pub open spec fn well_formed(self) -> bool {
        self.attempts < SEGMENT_RETRIES && self.rl_hits <= BUSY_RETRIES
    }

    /// No failure yet.
    pub fn new() -> (r: Retry)
        ensures
            r == (Retry { attempts: 0, rl_hits: 0 }),
            r.well_formed(),
    {
        Retry { attempts: 0, rl_hits: 0 }
    }
}

/// How an attempt at range `i` begins: not at all if the download is to stop.
pub open spec fn attempt_begun(before: Download, i: int, after: Download, r: Option<u64>) -> bool {
    if before.stopped() {
        r is None && after == before
    } else {
        let seg = before.segs@[i];
        let lost = num::max_of(seg.done - seg.flushed, 0);
        &&& r == Some(seg.flushed)
        &&& after == (Download {
            segs: after.segs,
            done: num::max_of(before.done - lost, 0) as u64,
            ..before
        })
        &&& after.segs@ == before.segs@.update(i, Seg { done: seg.flushed, ..seg })
    }
}

/// Begins an attempt at range `i`: `None` if the download was interrupted.
/// The attempt before may have counted bytes that never reached the disk: to
/// go on behind them would leave a hole in the file, so the range starts again
/// at the last byte that was flushed, which is the value returned.
pub fn begin_attempt(dl: &mut Download, i: usize) -> (r: Option<u64>)
    requires
        i < old(dl).segs@.len(),
    ensures
        attempt_begun(*old(dl), i as int, *final(dl), r),
{
    if dl.interrupted() {
        return None;
    }
    let mut seg: Seg = dl.segs[i];
    let lost: u64 = seg.rewind();
    dl.segs.set(i, seg);
    dl.done = dl.done.saturating_sub(lost);
    Some(seg.done)
}

/// What follows an attempt.
#[derive(Debug)]
pub enum Next {
    /// The range is complete.
    Done,
    /// The range is given up, for the reason given.
    Fail(String),
    /// Wait so many seconds, then try again.
    Nap(u64),
}

/// The failures in a row after an attempt: none if bytes came.
pub open spec fn carried(retry: Retry, progress: bool) -> Retry {
    if progress { Retry { attempts: 0, rl_hits: 0 } } else { retry }
}

/// How long to wait after the `hits`-th refusal in a row.
pub open spec fn busy_nap(after: Option<u64>, hits: int) -> int {
    num::min_of(
        match after {
            Some(s) => s as int,
            None => 2 + 3 * hits,
        },
        LONGEST_NAP as int,
    )
}

/// What is said of a file that changed on the server.
pub open spec fn changed_text() -> Seq<char> {
    "il file sul server è cambiato: annulla e riscarica da capo"@
}

/// Ends an attempt at range `i` that began at `before` received bytes: the
/// connection makes room for another, and the outcome decides what follows. Bytes
/// received clear the count of failures, so a download that moves never dies
/// by itself. A refusal halves the connections. A changed file is fatal.
pub fn end_attempt(
    retry: &mut Retry,
    gate: &mut Gate,
    dl: &mut Download,
    i: usize,
    before: u64,
    outcome: Result<(), SegErr>,
    now: u64,
) -> (r: Next)
    requires
        old(retry).well_formed(),
        old(gate).well_formed(),
        old(gate).active_spec() > 0,
        i < old(dl).segs@.len(),
    ensures
        final(gate).well_formed(),
        final(gate).active_spec() == old(gate).active_spec() - 1,
        final(gate).cap_spec() == old(gate).cap_spec(),
        ({
            let c = carried(*old(retry), old(dl).segs@[i as int].done > before);
            let kept = final(gate).max_spec() == old(gate).max_spec() && final(gate).moved_spec()
                == old(gate).moved_spec();
            match outcome {
                Ok(()) => r is Done && *final(dl) == *old(dl) && *final(retry) == c && kept,
                Err(SegErr::Changed) => {
                    &&& r matches Next::Fail(e) && e@ == changed_text()
                    &&& *final(dl) == (Download {
                        fatal: true,
                        fatal_msg: final(dl).fatal_msg,
                        ..*old(dl)
                    })
                    &&& final(dl).fatal_msg@ == changed_text()
                    &&& *final(retry) == c
                    &&& kept
                },
                Err(SegErr::RateLimited(after)) => {
                    let hits = c.rl_hits + 1;
                    &&& *final(retry) == (Retry { rl_hits: hits as u32, ..c })
                    &&& if hits > BUSY_RETRIES {
                        &&& r matches Next::Fail(e) && e@
                            == "il server continua a rispondere 429 anche a 1 connessione"@
                        &&& *final(dl) == *old(dl)
                        &&& kept
                    } else {
                        &&& r == Next::Nap(busy_nap(after, hits as int) as u64)
                        &&& final(gate).max_spec() == num::max_of(
                            old(gate).max_spec() as int / 2,
                            1,
                        )
                        &&& final(gate).moved_spec() == now
                        &&& *final(dl) == (Download { conc: final(gate).max_spec(), ..*old(dl) })
                    }
                },
                Err(SegErr::Other(e)) => {
                    let n = c.attempts + 1;
                    &&& *final(retry) == (Retry { attempts: n as u32, ..c })
                    &&& *final(dl) == *old(dl)
                    &&& kept
                    &&& r == if n >= SEGMENT_RETRIES { Next::Fail(e) } else { Next::Nap(n as u64) }
                },
            }
        }),
        r is Nap ==> final(retry).well_formed(),
{
    gate.leave();
    if dl.segs[i].done > before {
        retry.attempts = 0;
        retry.rl_hits = 0;
    }
    match outcome {
        Ok(()) => Next::Done,
        Err(SegErr::Changed) => {
            let msg = text::owned("il file sul server è cambiato: annulla e riscarica da capo");
            dl.set_fatal(msg.as_str());
            Next::Fail(msg)
        },
        Err(SegErr::RateLimited(after)) => {
            retry.rl_hits = retry.rl_hits + 1;
            if retry.rl_hits > BUSY_RETRIES {
                return Next::Fail(
                    text::owned("il server continua a rispondere 429 anche a 1 connessione"),
                );
            }
            let max: u64 = gate.shrink(now);
            dl.conc = max;
            let wait: u64 = match after {
                Some(s) => s,
                None => 2 + 3 * retry.rl_hits as u64,
            };
            Next::Nap(if wait <= LONGEST_NAP { wait } else { LONGEST_NAP })
        },
        Err(SegErr::Other(e)) => {
            retry.attempts = retry.attempts + 1;
            if retry.attempts >= SEGMENT_RETRIES {
                Next::Fail(e)
            } else {
                Next::Nap(retry.attempts as u64)
            }
        },
    }
}

/// Whether a nap of `secs` seconds goes on after `ticks` half seconds: it ends
/// at once when the download is interrupted.
pub fn nap_goes_on(dl: &Download, ticks: u64, secs: u64) -> (r: bool)
    ensures
        r == (ticks < secs * 2 && !dl.stopped()),
{
    ticks / 2 < secs && !dl.interrupted()
}

/// Whether the part file must be brought to the size of the whole before
/// ranges are written into it: its size is not that, or it has none.
pub fn needs_resize(actual: Option<u64>, total: u64) -> (r: bool)
    ensures
        r == (match actual {
            Some(n) => n,
            None => 0,
        } != total),
{
    match actual {
        Some(n) => n != total,
        None => total != 0,
    }
}

/// The numbers of the ranges that miss bytes, in order.
pub open spec fn unfinished(segs: Seq<Seg>) -> Seq<usize>
    decreases segs.len(),
{
    if segs.len() == 0 {
        Seq::empty()
    } else if segs.last().left() > 0 {
        unfinished(segs.drop_last()).push((segs.len() - 1) as usize)
    } else {
        unfinished(segs.drop_last())
    }
}

/// Lists the ranges that miss bytes.
pub fn pending(segs: &Vec<Seg>) -> (r: VecDeque<usize>)
    requires
        segment::all_countable(segs@),
    ensures
        r@ == unfinished(segs@),
        forall|k: int| 0 <= k < r@.len() ==> #[trigger] r@[k] < segs@.len(),
{
    let mut r: VecDeque<usize> = VecDeque::new();
    let mut i: usize = 0;
    assert(segs@.take(0) =~= Seq::empty());
    while i < segs.len()
        invariant
            segment::all_countable(segs@),
            i <= segs@.len(),
            r@ == unfinished(segs@.take(i as int)),
            forall|k: int| 0 <= k < r@.len() ==> #[trigger] r@[k] < i,
        decreases segs@.len() - i,
    {
        assert(segs@.take(i + 1).drop_last() =~= segs@.take(i as int));
        if segs[i].remaining() > 0 {
            r.push_back(i);
        }
        i = i + 1;
    }
    assert(segs@.take(i as int) =~= segs@);
    r
}

/// What a connection without a range does.
#[derive(Debug, Clone, Copy, PartialEq, Eq, Structural)]
pub enum Work {
    /// Work on this range.
    Take(usize),
    /// Wait a moment and ask again.
    Wait,
    /// There is nothing left to do.
    Exit,
}

/// What a connection without a range is given, and what becomes of the ranges
/// and of those that wait.
pub open spec fn work_given(
    before: Download,
    todo: Seq<usize>,
    gate: Gate,
    after: Download,
    todo_after: Seq<usize>,
    r: Work,
) -> bool {
    &&& after == (Download { segs: after.segs, ..before })
    &&& if todo.len() > 0 {
        &&& r == Work::Take(todo[0])
        &&& todo_after == todo.skip(1)
        &&& after.segs@ == before.segs@
    } else {
        &&& todo_after == todo
        &&& match r {
            Work::Wait => {
                &&& gate.active_spec() >= gate.max_spec()
                &&& !before.stopped()
                &&& after.segs@ == before.segs@
            },
            Work::Exit => {
                &&& after.segs@ == before.segs@
                &&& if gate.active_spec() >= gate.max_spec() {
                    before.stopped()
                } else {
                    forall|i: int|
                        0 <= i < before.segs@.len() ==> (#[trigger] before.segs@[i]).left()
                            < segment::STEAL_MIN * 2
                }
            },
            Work::Take(i) => {
                &&& gate.active_spec() < gate.max_spec()
                &&& i == before.segs@.len()
                &&& exists|v: int| #[trigger]
                    segment::is_victim(before.segs@, v) && after.segs@ == segment::halved(
                        before.segs@,
                        v,
                    )
            },
        }
    }
}

/// Gives a connection its next range: the first that waits, or half of the one
/// with the most left to do. Nothing is taken from another while there is
/// no room: the file would be cut up for connections that only wait there.
pub fn next_work(dl: &mut Download, todo: &mut VecDeque<usize>, gate: &Gate) -> (r: Work)
    requires
        segment::all_countable(old(dl).segs@),
        old(dl).segs@.len() < usize::MAX,
    ensures
        work_given(*old(dl), old(todo)@, *gate, *final(dl), final(todo)@, r),
{
    match todo.pop_front() {
        Some(i) => {
            assert(todo@ =~= old(todo)@.skip(1));
            return Work::Take(i);
        },
        None => {},
    }
    if !gate.has_room() {
        return if dl.interrupted() { Work::Exit } else { Work::Wait };
    }
    match segment::steal_segment(&mut dl.segs) {
        Some(_) => Work::Take(dl.segs.len() - 1),
        None => Work::Exit,
    }
}

/// The first error among the outcomes of the connections.
pub open spec fn first_some(outcomes: Seq<Option<String>>) -> Option<String>
    decreases outcomes.len(),
{
    if outcomes.len() == 0 {
        None
    } else if outcomes[0] is Some {
        outcomes[0]
    } else {
        first_some(outcomes.skip(1))
    }
}

/// The outcome of all connections: the first error, if there was one.
pub fn first_error(outcomes: Vec<Option<String>>) -> (r: Option<String>)
    ensures
        probe::opt_view(r) == probe::opt_view(first_some(outcomes@)),
{
    let mut i: usize = 0;
    assert(outcomes@.skip(0) =~= outcomes@);
    while i < outcomes.len()
        invariant
            i <= outcomes@.len(),
            first_some(outcomes@) == first_some(outcomes@.skip(i as int)),
        decreases outcomes@.len() - i,
    {
        assert(outcomes@.skip(i as int)[0] == outcomes@[i as int]);
        assert(outcomes@.skip(i as int).skip(1) =~= outcomes@.skip(i + 1));
        match &outcomes[i] {
            Some(e) => {
                return Some(e.clone());
            },
            None => {},
        }
        i = i + 1;
    }
    None
}

/// Sets up the connections of a download and notes how many connections it may use.
pub fn open_gate(dl: &mut Download, start: u64, max: u64, now: u64) -> (r: Gate)
    ensures
        r.well_formed(),
        r.cap_spec() == num::within(max as int, 1, crate::config::MAX_CONNECTIONS_CAP as int),
        r.max_spec() == num::within(start as int, 1, r.cap_spec() as int),
        r.active_spec() == 0,
        r.moved_spec() == now,
        *final(dl) == (Download { conc: r.max_spec(), ..*old(dl) }),
{
    let gate = Gate::new(start, max, now);
    dl.conc = gate.max();
    gate
}

/// Tries one connection more if it has been quiet for long enough.
pub fn ramp_up(gate: &mut Gate, dl: &mut Download, now: u64)
    requires
        old(gate).well_formed(),
    ensures
        final(gate).well_formed(),
        final(gate).cap_spec() == old(gate).cap_spec(),
        final(gate).active_spec() == old(gate).active_spec(),
        if num::max_of(now - old(gate).moved_spec(), 0) >= RAMP_QUIET && old(gate).max_spec() < old(
            gate,
        ).cap_spec() {
            &&& final(gate).max_spec() == old(gate).max_spec() + 1
            &&& final(gate).moved_spec() == now
            &&& *final(dl) == (Download { conc: final(gate).max_spec(), ..*old(dl) })
        } else {
            *final(gate) == *old(gate) && *final(dl) == *old(dl)
        },
{
    match gate.maybe_grow(RAMP_QUIET, now) {
        Some(max) => {
            dl.conc = max;
        },
        None => {},
    }
}

/// Judges the answer to a request for the whole file: the error, if the file
/// does not follow. A length that the server states is the size of the file.
pub fn begin_stream(dl: &mut Download, status: u16, content_length: Option<u64>) -> (r: Option<
    String,
>)
    ensures
        r is None <==> probe::is_success(status),
        r matches Some(e) ==> e@ == "status "@ + probe::status_text(status),
        *final(dl) == match content_length {
            Some(n) if n > 0 && probe::is_success(status) => (Download { total: n, ..*old(dl) }),
            _ => *old(dl),
        },
{
    if !(200 <= status && status < 300) {
        return Some(text::join("status ", probe::show_status(status).as_str()));
    }
    match content_length {
        Some(n) => {
            if n > 0 {
                dl.total = n;
            }
        },
        None => {},
    }
    None
}

/// Decides what to do with what was heard while the whole file is fetched in
/// one go. Here nothing is saved for a later attempt: it starts anew.
pub fn next_stream_step(heard: Heard) -> (r: Step)
    ensures
        match heard {
            Heard::Interrupted => r matches Step::Abandon(e) && e@ == "interrotto"@,
            Heard::Stalled => r matches Step::Abandon(e) && e@ == "stallo: nessun dato per 30s"@,
            Heard::Broken(why) => r matches Step::Abandon(e) && e@ == "stream interrotto: "@ + why@,
            Heard::Closed => r is Seal,
            Heard::Chunk(n) => r == Step::Write(n),
        },
{
    match heard {
        Heard::Interrupted => Step::Abandon(text::owned("interrotto")),
        Heard::Stalled => Step::Abandon(text::owned("stallo: nessun dato per 30s")),
        Heard::Broken(why) => Step::Abandon(text::join("stream interrotto: ", why.as_str())),
        Heard::Closed => Step::Seal,
        Heard::Chunk(n) => Step::Write(n),
    }
}

/// The ranges after `n` more bytes of the whole file were received: the first
/// range counts them, if there is one.
pub open spec fn streamed(segs: Seq<Seg>, n: u64) -> Seq<Seg> {
    if segs.len() == 0 {
        segs
    } else {
        segs.update(0, Seg { done: (segs[0].done + n) as u64, ..segs[0] })
    }
}

/// Records that `n` bytes of the whole file were written.
pub fn wrote_stream(dl: &mut Download, written: &mut u64, n: u64)
    requires
        *old(written) + n <= u64::MAX,
        old(dl).done + n <= u64::MAX,
        old(dl).segs@.len() > 0 ==> old(dl).segs@[0].done + n <= u64::MAX,
    ensures
        *final(written) == *old(written) + n,
        *final(dl) == (Download {
            segs: final(dl).segs,
            done: (old(dl).done + n) as u64,
            ..*old(dl)
        }),
        final(dl).segs@ == streamed(old(dl).segs@, n),
{
    *written = *written + n;
    dl.done = dl.done + n;
    if dl.segs.len() > 0 {
        let seg: Seg = dl.segs[0];
        dl.segs.set(0, Seg { done: seg.done + n, ..seg });
    }
}

/// Ends the fetching of the whole file, once everything is flushed: an error
/// if the size is known and less than that came.
pub fn seal_stream(dl: &mut Download, written: u64) -> (r: Option<String>)
    ensures
        *final(dl) == (Download { segs: final(dl).segs, ..*old(dl) }),
        final(dl).segs@ == if old(dl).segs@.len() == 0 {
            old(dl).segs@
        } else {
            old(dl).segs@.update(
                0,
                Seg { flushed: old(dl).segs@[0].done, ..old(dl).segs@[0] },
            )
        },
        r is Some <==> old(dl).total > 0 && written < old(dl).total,
        r matches Some(e) ==> e@ == "connessione chiusa in anticipo ("@ + ui::bytes_text(
            written as int,
        ) + " su "@ + ui::bytes_text(old(dl).total as int) + ")"@,
{
    if dl.segs.len() > 0 {
        let mut seg: Seg = dl.segs[0];
        seg.mark_flushed();
        dl.segs.set(0, seg);
    }
    if dl.total > 0 && written < dl.total {
        let mut e: String = text::join(
            "connessione chiusa in anticipo (",
            ui::fmt_bytes(written).as_str(),
        );
        e.append(" su ");
        e.append(ui::fmt_bytes(dl.total).as_str());
        e.append(")");
        Some(e)
    } else {
        None
    }
}

/// A connection and its range after one more write of `take` bytes, and after
/// the flush that may follow it: what [`wrote`] and [`flushed`] do.
pub open spec fn settled(f: Fetch, seg: Seg, take: u64) -> (Fetch, Seg) {
    let done = (seg.done + take) as u64;
    let pos = (f.pos + take) as u64;
    let since = (f.since_flush + take) as u64;
    if since >= FLUSH_EVERY {
        (Fetch { pos, since_flush: 0 }, Seg { done, flushed: done, ..seg })
    } else {
        (Fetch { pos, since_flush: since }, Seg { done, ..seg })
    }
}

/// A connection and its range after a row of writes.
pub open spec fn settled_all(f: Fetch, seg: Seg, takes: Seq<u64>) -> (Fetch, Seg)
    decreases takes.len(),
{
    if takes.len() == 0 {
        (f, seg)
    } else {
        let (f1, s1) = settled_all(f, seg, takes.drop_last());
        settled(f1, s1, takes.last())
    }
}

/// How many bytes a row of writes holds.
pub open spec fn sum(takes: Seq<u64>) -> int
    decreases takes.len(),
{
    if takes.len() == 0 { 0 } else { sum(takes.drop_last()) + takes.last() }
}

/// A crash is cheap: however much a connection has received, fewer than
/// `FLUSH_EVERY` bytes of it are not yet safe on disk once a write and the
/// flush that may follow it are over.
pub proof fn a_crash_costs_less_than_a_flush(f: Fetch, seg: Seg, takes: Seq<u64>)
    requires
        f.tracks(seg),
        f.since_flush < FLUSH_EVERY,
        seg.start + seg.done + sum(takes) <= u64::MAX,
    ensures
        settled_all(f, seg, takes).0.tracks(settled_all(f, seg, takes).1),
        settled_all(f, seg, takes).1.done == seg.done + sum(takes),
        settled_all(f, seg, takes).1.start == seg.start,
        settled_all(f, seg, takes).1.done - settled_all(f, seg, takes).1.flushed < FLUSH_EVERY,
        settled_all(f, seg, takes).0.since_flush < FLUSH_EVERY,
        sum(takes) >= 0,
    decreases takes.len(),
{
    if takes.len() > 0 {
        assert(sum(takes) == sum(takes.drop_last()) + takes.last());
        a_crash_costs_less_than_a_flush(f, seg, takes.drop_last());
    }
}

/// A download that moves never dies by itself: after an attempt in which a
/// byte came, neither a refusal nor a failure makes the range fail.
pub proof fn progress_never_dies(retry: Retry)
    ensures
        carried(retry, true).rl_hits + 1 <= BUSY_RETRIES,
        carried(retry, true).attempts + 1 < SEGMENT_RETRIES,
{
}

/// Naps after refusals never outlast half a minute, and without the server's
/// word they grow with every refusal until they do.
pub proof fn naps_after_refusals_are_bounded(after: Option<u64>, hits: int)
    requires
        1 <= hits,
    ensures
        0 <= busy_nap(after, hits) <= LONGEST_NAP,
        after is None ==> busy_nap(after, hits) <= busy_nap(after, hits + 1),
        after is None ==> busy_nap(after, hits) >= 5,
{
}

/// A run of all connections of a download: the ranges, those that wait, those
/// that a connection works on, and the file on disk.
pub struct Run {
    pub segs: Seq<Seg>,
    pub todo: Seq<usize>,
    pub hands: Set<int>,
    pub file: Seq<u8>,
}

/// Something that happens in a run.
pub enum RunOp {
    /// A connection takes the first range that waits.
    PickUp,
    /// A connection takes half of this range, since none waits.
    Steal(int),
    /// So many bytes of this range are received behind those already there.
    Receive(int, u64),
    /// So many of the bytes that wait in the write buffer of this range reach
    /// the disk, though nobody asked for it.
    Spill(int, int),
    /// What this range received is flushed.
    Flush(int),
    /// An attempt at this range starts again at the last flushed byte.
    Rewind(int),
    /// A connection lays down this range, which is complete and flushed.
    LayDown(int),
}

/// The file with `bytes` written at `at`.
pub open spec fn written_at(file: Seq<u8>, at: int, bytes: Seq<u8>) -> Seq<u8> {
    Seq::new(
        file.len(),
        |b: int| if at <= b < at + bytes.len() { bytes[b - at] } else { file[b] },
    )
}

/// What a range counts as flushed is in the file as it is on the server.
pub open spec fn on_disk(file: Seq<u8>, remote: Seq<u8>, seg: Seg) -> bool {
    forall|b: int| seg.start <= b < seg.start + seg.flushed ==> #[trigger] file[b] == remote[b]
}

/// Every byte that `before` has as it is on the server, `after` has so too.
pub open spec fn gains(before: Seq<u8>, after: Seq<u8>, remote: Seq<u8>) -> bool {
    &&& after.len() == before.len()
    &&& forall|b: int|
        0 <= b < before.len() && before[b] == remote[b] ==> #[trigger] after[b] == remote[b]
}

impl Run {
    /// The run that starts, or starts again, with these ranges and this file:
    /// the ranges that miss bytes wait.
    pub open spec fn starting(segs: Seq<Seg>, file: Seq<u8>) -> Run {
        Run { segs, todo: unfinished(segs), hands: Set::empty(), file }
    }

    /// Whether `op` can happen.
    pub open spec fn allows(self, op: RunOp) -> bool {
        match op {
            RunOp::PickUp => self.todo.len() > 0,
            RunOp::Steal(v) => {
                &&& self.todo.len() == 0
                &&& segment::is_victim(self.segs, v)
                &&& self.segs.len() < usize::MAX
            },
            RunOp::Receive(i, n) => {
                &&& self.holds(i)
                &&& self.segs[i].start + self.segs[i].done + n <= self.file.len()
            },
            RunOp::Spill(i, n) => {
                &&& self.holds(i)
                &&& 0 <= n <= self.segs[i].done - self.segs[i].flushed
            },
            RunOp::Flush(i) => self.holds(i),
            RunOp::Rewind(i) => self.holds(i),
            RunOp::LayDown(i) => {
                &&& self.holds(i)
                &&& self.segs[i].start + self.segs[i].done > self.segs[i].end
                &&& self.segs[i].flushed == self.segs[i].done
            },
        }
    }

    /// A connection works on range `i`.
    pub open spec fn holds(self, i: int) -> bool {
        0 <= i < self.segs.len() && self.hands.contains(i)
    }

    /// The file after the next `n` bytes of range `i` that were not flushed
    /// reached it.
    pub open spec fn poured(self, i: int, n: int, remote: Seq<u8>) -> Seq<u8> {
        let at = self.segs[i].start + self.segs[i].flushed;
        written_at(self.file, at, remote.subrange(at, at + n))
    }

    /// The run after `op`, when the server sends the bytes of `remote`.
    pub open spec fn after(self, op: RunOp, remote: Seq<u8>) -> Run {
        match op {
            RunOp::PickUp => Run {
                todo: self.todo.skip(1),
                hands: self.hands.insert(self.todo[0] as int),
                ..self
            },
            RunOp::Steal(v) => Run {
                segs: segment::halved(self.segs, v),
                hands: self.hands.insert(self.segs.len() as int),
                ..self
            },
            RunOp::Receive(i, n) => {
                let s = self.segs[i];
                Run { segs: self.segs.update(i, Seg { done: (s.done + n) as u64, ..s }), ..self }
            },
            RunOp::Spill(i, n) => Run { file: self.poured(i, n, remote), ..self },
            RunOp::Flush(i) => {
                let s = self.segs[i];
                Run {
                    segs: self.segs.update(i, Seg { flushed: s.done, ..s }),
                    file: self.poured(i, s.done - s.flushed, remote),
                    ..self
                }
            },
            RunOp::Rewind(i) => Run {
                segs: self.segs.update(i, Seg { done: self.segs[i].flushed, ..self.segs[i] }),
                ..self
            },
            RunOp::LayDown(i) => Run { hands: self.hands.remove(i), ..self },
        }
    }

    /// Whether all of `ops` can happen, one after the other.
    pub open spec fn allows_all(self, ops: Seq<RunOp>, remote: Seq<u8>) -> bool
        decreases ops.len(),
    {
        ops.len() == 0 || {
            &&& self.allows_all(ops.drop_last(), remote)
            &&& self.after_all(ops.drop_last(), remote).allows(ops.last())
        }
    }

    /// The run after all of `ops`.
    pub open spec fn after_all(self, ops: Seq<RunOp>, remote: Seq<u8>) -> Run
        decreases ops.len(),
    {
        if ops.len() == 0 {
            self
        } else {
            self.after_all(ops.drop_last(), remote).after(ops.last(), remote)
        }
    }

    /// The counters of range `i` fit the file, and those of a range that
    /// nobody works on are settled.
    pub open spec fn counts_well(self, i: int) -> bool {
        let s = self.segs[i];
        &&& s.start <= s.end
        &&& s.flushed <= s.done
        &&& s.start + s.done <= self.file.len()
        &&& !self.hands.contains(i) ==> s.flushed == s.done
    }

    /// Every byte of the file belongs to one range; what a range flushed is
    /// on disk; and every range that misses bytes waits or is worked on. A
    /// range that was cut shorter while bytes were under way may count more
    /// bytes than it spans.
    pub open spec fn sound(self, remote: Seq<u8>) -> bool {
        &&& segment::tiles(self.segs, remote.len() as int)
        &&& self.segs.len() <= usize::MAX
        &&& self.file.len() == remote.len() <= u64::MAX
        &&& forall|i: int|
            0 <= i < self.segs.len() ==> on_disk(self.file, remote, #[trigger] self.segs[i])
                && self.counts_well(i)
        &&& forall|i: int|
            0 <= i < self.segs.len() && (#[trigger] self.segs[i]).left() > 0 ==> self.hands.contains(
                i,
            ) || self.todo.contains(i as usize)
        &&& forall|k: int| 0 <= k < self.todo.len() ==> #[trigger] self.todo[k] < self.segs.len()
    }

    /// No range waits and none is worked on.
    pub open spec fn is_over(self) -> bool {
        self.todo.len() == 0 && forall|i: int| !self.hands.contains(i)
    }
}

/// Ranges that fit the file start a sound run, if what they count is on disk.
pub proof fn a_run_starts_sound(segs: Seq<Seg>, file: Seq<u8>, remote: Seq<u8>)
    requires
        segment::tiles(segs, remote.len() as int),
        segs.len() <= usize::MAX,
        file.len() == remote.len() <= u64::MAX,
        forall|i: int|
            0 <= i < segs.len() ==> (#[trigger] segs[i]).start <= segs[i].end && segs[i].flushed
                == segs[i].done && segs[i].start + segs[i].done <= file.len(),
        forall|i: int| 0 <= i < segs.len() ==> on_disk(file, remote, #[trigger] segs[i]),
    ensures
        Run::starting(segs, file).sound(remote),
{
    let run = Run::starting(segs, file);
    assert forall|i: int| 0 <= i < segs.len() implies run.counts_well(i) by {
        assert(segs[i].start <= segs[i].end);
    }
    assert forall|i: int| 0 <= i < segs.len() && (#[trigger] segs[i]).left()
        > 0 implies unfinished(segs).contains(i as usize) by {
        lemma_unfinished(segs, i);
    }
    lemma_unfinished_bound(segs);
}

proof fn lemma_unfinished(segs: Seq<Seg>, i: int)
    requires
        0 <= i < segs.len(),
        segs.len() <= usize::MAX,
        segs[i].left() > 0,
    ensures
        unfinished(segs).contains(i as usize),
    decreases segs.len(),
{
    let u = unfinished(segs);
    if i == segs.len() - 1 {
        assert(u[u.len() - 1] == i as usize);
    } else {
        let p = unfinished(segs.drop_last());
        assert(segs.drop_last()[i] == segs[i]);
        lemma_unfinished(segs.drop_last(), i);
        let k = choose|k: int| 0 <= k < p.len() && p[k] == i as usize;
        assert(u[k] == i as usize);
    }
}

proof fn lemma_unfinished_bound(segs: Seq<Seg>)
    requires
        segs.len() <= usize::MAX,
    ensures
        forall|k: int| 0 <= k < unfinished(segs).len() ==> #[trigger] unfinished(segs)[k] < segs.len(),
    decreases segs.len(),
{
    if segs.len() > 0 {
        let p = unfinished(segs.drop_last());
        lemma_unfinished_bound(segs.drop_last());
        assert forall|k: int| 0 <= k < unfinished(segs).len() implies #[trigger] unfinished(segs)[k]
            < segs.len() by {
            if k < p.len() {
                assert(p[k] < segs.drop_last().len());
            }
        }
    }
}

/// Whatever the connections do, and in whatever order, the run stays sound,
/// and no byte on disk is ever spoiled.
pub proof fn runs_stay_sound(run: Run, ops: Seq<RunOp>, remote: Seq<u8>)
    requires
        run.sound(remote),
        run.allows_all(ops, remote),
    ensures
        run.after_all(ops, remote).sound(remote),
        gains(run.file, run.after_all(ops, remote).file, remote),
    decreases ops.len(),
{
    if ops.len() > 0 {
        runs_stay_sound(run, ops.drop_last(), remote);
        lemma_step(run.after_all(ops.drop_last(), remote), ops.last(), remote);
    }
}

/// One step of [`runs_stay_sound`].
proof fn lemma_step(run: Run, op: RunOp, remote: Seq<u8>)
    requires
        run.sound(remote),
        run.allows(op),
    ensures
        run.after(op, remote).sound(remote),
        gains(run.file, run.after(op, remote).file, remote),
{
    match op {
        RunOp::PickUp => {
            let next = run.after(op, remote);
            assert forall|i: int| 0 <= i < next.segs.len() && (#[trigger] next.segs[i]).left()
                > 0 implies next.hands.contains(i) || next.todo.contains(i as usize) by {
                if !run.hands.contains(i) {
                    let k = choose|k: int| 0 <= k < run.todo.len() && run.todo[k] == i as usize;
                    if k > 0 {
                        assert(next.todo[k - 1] == i as usize);
                    }
                }
            }
            assert forall|i: int| 0 <= i < next.segs.len() implies on_disk(
                next.file,
                remote,
                #[trigger] next.segs[i],
            ) && next.counts_well(i) by {
                assert(run.counts_well(i));
            }
        },
        RunOp::Steal(v) => {
            lemma_steal_step(run, v, remote);
        },
        RunOp::Receive(i, n) => {
            let s = run.segs[i];
            lemma_counter_step(
                run,
                i,
                Seg { done: (s.done + n) as u64, ..s },
                run.file,
                remote,
            );
        },
        RunOp::Spill(i, n) => {
            assert(run.counts_well(i));
            lemma_poured(run, i, n, remote);
            lemma_counter_step(run, i, run.segs[i], run.poured(i, n, remote), remote);
            assert(run.segs.update(i, run.segs[i]) =~= run.segs);
        },
        RunOp::Flush(i) => {
            let s = run.segs[i];
            assert(run.counts_well(i));
            lemma_poured(run, i, s.done - s.flushed, remote);
            lemma_counter_step(
                run,
                i,
                Seg { flushed: s.done, ..s },
                run.poured(i, s.done - s.flushed, remote),
                remote,
            );
        },
        RunOp::Rewind(i) => {
            let s = run.segs[i];
            assert(run.counts_well(i));
            lemma_counter_step(run, i, Seg { done: s.flushed, ..s }, run.file, remote);
        },
        RunOp::LayDown(i) => {
            let next = run.after(op, remote);
            assert(run.counts_well(i));
            assert(run.segs[i].left() == 0);
            assert forall|j: int| 0 <= j < next.segs.len() implies on_disk(
                next.file,
                remote,
                #[trigger] next.segs[j],
            ) && next.counts_well(j) by {
                assert(run.counts_well(j));
            }
        },
    }
}

proof fn lemma_steal_step(run: Run, v: int, remote: Seq<u8>)
    requires
        run.sound(remote),
        run.allows(RunOp::Steal(v)),
    ensures
        run.after(RunOp::Steal(v), remote).sound(remote),
{
    let next = run.after(RunOp::Steal(v), remote);
    let n = run.segs.len() as int;
    segment::steal_keeps_every_byte_owned_once(run.segs, v, remote.len() as int);
    assert(run.counts_well(v));
    assert(run.segs[v].owns(run.segs[v].end as int));
    assert(segment::owned(run.segs, run.segs[v].end as int));
    assert forall|i: int| 0 <= i < next.segs.len() implies on_disk(
        next.file,
        remote,
        #[trigger] next.segs[i],
    ) && next.counts_well(i) by {
        if i < n {
            assert(on_disk(run.file, remote, run.segs[i]));
            assert(run.counts_well(i));
        }
    }
    assert forall|i: int| 0 <= i < next.segs.len() && (#[trigger] next.segs[i]).left()
        > 0 implies next.hands.contains(i) || next.todo.contains(i as usize) by {
        if i < n {
            assert(run.segs[i].left() > 0) by {
                assert(run.segs[v].left() >= segment::STEAL_MIN * 2);
            }
        }
    }
}

/// What reaches the file from the write buffer of a range spoils nothing, and
/// is there as it is on the server.
proof fn lemma_poured(run: Run, i: int, n: int, remote: Seq<u8>)
    requires
        run.sound(remote),
        run.holds(i),
        0 <= n <= run.segs[i].done - run.segs[i].flushed,
    ensures
        gains(run.file, run.poured(i, n, remote), remote),
        forall|b: int|
            run.segs[i].start <= b < run.segs[i].start + run.segs[i].flushed + n
                ==> #[trigger] run.poured(i, n, remote)[b] == remote[b],
{
    assert(run.counts_well(i));
    let at = run.segs[i].start + run.segs[i].flushed;
    let sent = remote.subrange(at, at + n);
    let after = run.poured(i, n, remote);
    assert forall|b: int| 0 <= b < after.len() implies #[trigger] after[b] == if at <= b < at + n {
        remote[b]
    } else {
        run.file[b]
    } by {
        if at <= b < at + n {
            assert(sent[b - at] == remote[b]);
        }
    }
    assert(on_disk(run.file, remote, run.segs[i]));
}

/// A range whose counters moved, in a file that spoiled nothing.
proof fn lemma_counter_step(run: Run, i: int, s: Seg, file: Seq<u8>, remote: Seq<u8>)
    requires
        run.sound(remote),
        run.holds(i),
        s.start == run.segs[i].start,
        s.end == run.segs[i].end,
        s.flushed <= s.done,
        s.start + s.done <= remote.len(),
        gains(run.file, file, remote),
        on_disk(file, remote, s),
    ensures
        (Run { segs: run.segs.update(i, s), file, ..run }).sound(remote),
{
    let next = Run { segs: run.segs.update(i, s), file, ..run };
    segment::counters_do_not_matter(run.segs, next.segs, remote.len() as int);
    assert forall|j: int| 0 <= j < next.segs.len() implies on_disk(
        next.file,
        remote,
        #[trigger] next.segs[j],
    ) && next.counts_well(j) by {
        assert(run.counts_well(j));
        assert(on_disk(run.file, remote, run.segs[j]));
        if j != i {
            assert forall|b: int|
                next.segs[j].start <= b < next.segs[j].start
                    + next.segs[j].flushed implies #[trigger] next.file[b] == remote[b] by {
                assert(run.file[b] == remote[b]);
            }
        }
    }
    assert forall|j: int| 0 <= j < next.segs.len() && (#[trigger] next.segs[j]).left()
        > 0 implies next.hands.contains(j) || next.todo.contains(j as usize) by {
        if j != i {
            assert(run.segs[j].left() > 0);
        }
    }
}

/// What a connection is told to write is part of the run, even if its range
/// is cut shorter before the bytes are written and recorded. `then` is the
/// run when the connection was told, `run` the one in which it is recorded.
pub proof fn a_write_is_part_of_the_run(
    then: Run,
    run: Run,
    i: int,
    f: Fetch,
    chunk: u64,
    remote: Seq<u8>,
)
    requires
        then.sound(remote),
        run.sound(remote),
        0 <= i < then.segs.len(),
        run.holds(i),
        f.tracks(then.segs[i]),
        f.tracks(run.segs[i]),
        f.pos <= then.segs[i].end,
    ensures
        ({
            let take = num::min_of(chunk as int, then.segs[i].end - f.pos + 1) as u64;
            &&& run.allows(RunOp::Receive(i, take))
            &&& run.after(RunOp::Receive(i, take), remote).segs == run.segs.update(
                i,
                grown(run.segs[i], take),
            )
        }),
{
    assert(then.counts_well(i));
    assert(then.segs[i].owns(then.segs[i].end as int));
    assert(segment::owned(then.segs, then.segs[i].end as int));
}

/// The file is the remote file: once no range waits and none is worked on,
/// every byte is on disk as it is on the server.
pub proof fn a_finished_run_has_the_remote_file(run: Run, remote: Seq<u8>)
    requires
        run.sound(remote),
        run.is_over(),
    ensures
        run.file == remote,
        forall|i: int|
            0 <= i < run.segs.len() ==> (#[trigger] run.segs[i]).left() == 0 && run.segs[i].flushed
                == run.segs[i].done,
{
    assert forall|i: int| 0 <= i < run.segs.len() implies (#[trigger] run.segs[i]).left() == 0
        && run.segs[i].flushed == run.segs[i].done by {
        assert(run.counts_well(i));
        if run.segs[i].left() > 0 {
            assert(run.hands.contains(i) || run.todo.contains(i as usize));
        }
    }
    assert forall|b: int| 0 <= b < remote.len() implies run.file[b] == remote[b] by {
        assert(segment::owned(run.segs, b));
        let i = choose|i: int| 0 <= i < run.segs.len() && (#[trigger] run.segs[i]).owns(b);
        assert(run.counts_well(i));
        assert(run.segs[i].left() == 0);
        assert(on_disk(run.file, remote, run.segs[i]));
    }
    assert(run.file =~= remote);
}

/// Taking work is part of the run: a range that waits is picked up, or half of
/// another is stolen; a connection that is given nothing changes nothing, and
/// finds that no range waits.
pub proof fn taking_work_is_part_of_the_run(
    run: Run,
    before: Download,
    gate: Gate,
    after: Download,
    todo_after: Seq<usize>,
    r: Work,
    remote: Seq<u8>,
)
    requires
        run.segs == before.segs@,
        run.segs.len() < usize::MAX,
        work_given(before, run.todo, gate, after, todo_after, r),
    ensures
        match r {
            Work::Take(i) => exists|op: RunOp|
                {
                    &&& op is PickUp || op is Steal
                    &&& #[trigger] run.allows(op)
                    &&& run.after(op, remote) == (Run {
                        segs: after.segs@,
                        todo: todo_after,
                        hands: run.hands.insert(i as int),
                        file: run.file,
                    })
                },
            _ => after.segs@ == run.segs && todo_after == run.todo && run.todo.len() == 0,
        },
{
    if let Work::Take(i) = r {
        if run.todo.len() > 0 {
            assert(run.allows(RunOp::PickUp));
        } else {
            let v = choose|v: int| #[trigger]
                segment::is_victim(before.segs@, v) && after.segs@ == segment::halved(
                    before.segs@,
                    v,
                );
            assert(run.allows(RunOp::Steal(v)));
        }
    }
}

/// To begin an attempt is part of the run: the range goes back to its last
/// flushed byte. If the range then misses nothing, it can be laid down.
pub proof fn an_attempt_is_part_of_the_run(
    run: Run,
    i: int,
    before: Download,
    after: Download,
    r: Option<u64>,
    remote: Seq<u8>,
)
    requires
        run.segs == before.segs@,
        run.holds(i),
        attempt_begun(before, i, after, r),
    ensures
        r is None ==> after.segs@ == run.segs,
        r is Some ==> {
            let next = run.after(RunOp::Rewind(i), remote);
            &&& run.allows(RunOp::Rewind(i))
            &&& next.segs == after.segs@
            &&& next.segs[i].start + next.segs[i].done > next.segs[i].end ==> next.allows(
                RunOp::LayDown(i),
            )
        },
{
}

/// To flush, in the middle of a range or because a connection failed, is part
/// of the run.
pub proof fn a_flush_is_part_of_the_run(
    run: Run,
    i: int,
    before: Download,
    after: Download,
    remote: Seq<u8>,
)
    requires
        run.segs == before.segs@,
        run.holds(i),
        download::with_seg(before, i, all_flushed(before.segs@[i]), after),
    ensures
        run.allows(RunOp::Flush(i)),
        run.after(RunOp::Flush(i), remote).segs == after.segs@,
{
}

/// The end of a connection is part of the run: everything is flushed, and
/// where it came to the end of its range, that is laid down.
pub proof fn a_seal_is_part_of_the_run(
    run: Run,
    i: int,
    before: Download,
    after: Download,
    r: Result<(), SegErr>,
    remote: Seq<u8>,
)
    requires
        run.segs == before.segs@,
        run.holds(i),
        sealed(before, i, after, r),
    ensures
        run.allows(RunOp::Flush(i)),
        run.after(RunOp::Flush(i), remote).segs == after.segs@,
        r is Ok ==> run.after(RunOp::Flush(i), remote).allows(RunOp::LayDown(i)),
{
}

/// Where a connection of a run is.
pub enum Place {
    /// It has no range.
    Free,
    /// It works on this range.
    At(int),
    /// It left, since there was nothing to do.
    Left,
    /// It gave up, or was stopped, at this range.
    Failed(int),
}

/// A run and the connections that carry it out.
pub struct Crew {
    pub run: Run,
    pub at: Seq<Place>,
}

/// Something that one of the connections does.
pub enum CrewOp {
    /// It takes part in the run.
    Act(int, RunOp),
    /// It leaves, since there is nothing to do.
    Leave(int),
    /// It gives up, or is stopped, at its range.
    Fail(int),
}

impl Place {
    /// A connection there has range `i`, or had it when it gave up.
    pub open spec fn has(self, i: int) -> bool {
        self == Place::At(i) || self == Place::Failed(i)
    }
}

impl Crew {
    /// `n` connections, none of which has a range yet.
    pub open spec fn starting(run: Run, n: nat) -> Crew {
        Crew { run, at: Seq::new(n, |w: int| Place::Free) }
    }

    /// Whether `op` can happen. A connection works on its own range alone, and
    /// leaves only where it is given nothing, so where no range waits.
    pub open spec fn allows(self, op: CrewOp) -> bool {
        match op {
            CrewOp::Act(w, op) => {
                &&& 0 <= w < self.at.len()
                &&& self.run.allows(op)
                &&& match op {
                    RunOp::PickUp => self.at[w] is Free,
                    RunOp::Steal(_) => self.at[w] is Free,
                    RunOp::Receive(i, _) => self.at[w] == Place::At(i),
                    RunOp::Spill(i, _) => self.at[w] == Place::At(i),
                    RunOp::Flush(i) => self.at[w] == Place::At(i),
                    RunOp::Rewind(i) => self.at[w] == Place::At(i),
                    RunOp::LayDown(i) => self.at[w] == Place::At(i),
                }
            },
            CrewOp::Leave(w) => {
                &&& 0 <= w < self.at.len()
                &&& self.at[w] is Free
                &&& self.run.todo.len() == 0
            },
            CrewOp::Fail(w) => 0 <= w < self.at.len() && self.at[w] is At,
        }
    }

    /// The crew after `op`, when the server sends the bytes of `remote`.
    pub open spec fn after(self, op: CrewOp, remote: Seq<u8>) -> Crew {
        match op {
            CrewOp::Act(w, op) => Crew {
                run: self.run.after(op, remote),
                at: match op {
                    RunOp::PickUp => self.at.update(w, Place::At(self.run.todo[0] as int)),
                    RunOp::Steal(_) => self.at.update(w, Place::At(self.run.segs.len() as int)),
                    RunOp::LayDown(_) => self.at.update(w, Place::Free),
                    _ => self.at,
                },
            },
            CrewOp::Leave(w) => Crew { at: self.at.update(w, Place::Left), ..self },
            CrewOp::Fail(w) => Crew {
                at: self.at.update(w, Place::Failed(self.at[w]->At_0)),
                ..self
            },
        }
    }

    /// Whether all of `ops` can happen, one after the other.
    pub open spec fn allows_all(self, ops: Seq<CrewOp>, remote: Seq<u8>) -> bool
        decreases ops.len(),
    {
        ops.len() == 0 || {
            &&& self.allows_all(ops.drop_last(), remote)
            &&& self.after_all(ops.drop_last(), remote).allows(ops.last())
        }
    }

    /// The crew after all of `ops`.
    pub open spec fn after_all(self, ops: Seq<CrewOp>, remote: Seq<u8>) -> Crew
        decreases ops.len(),
    {
        if ops.len() == 0 {
            self
        } else {
            self.after_all(ops.drop_last(), remote).after(ops.last(), remote)
        }
    }

    /// Connection `w` has range `i`, or had it when it gave up.
    pub open spec fn has(self, w: int, i: int) -> bool {
        0 <= w < self.at.len() && self.at[w].has(i)
    }

    /// The ranges that are worked on are those that the connections have, each
    /// range one connection's; none of them waits; and once a connection left,
    /// none waits at all.
    pub open spec fn sound(self, remote: Seq<u8>) -> bool {
        &&& self.run.sound(remote)
        &&& forall|i: int| #[trigger]
            self.run.hands.contains(i) ==> exists|w: int| #[trigger] self.has(w, i)
        &&& forall|w: int, i: int| #[trigger] self.has(w, i) ==> self.run.holds(i)
        &&& forall|w: int, x: int, i: int| #[trigger]
            self.has(w, i) && #[trigger] self.has(x, i) ==> w == x
        &&& self.run.todo.no_duplicates()
        &&& forall|k: int|
            0 <= k < self.run.todo.len() ==> !self.run.hands.contains(
                (#[trigger] self.run.todo[k]) as int,
            )
        &&& forall|w: int|
            0 <= w < self.at.len() && (#[trigger] self.at[w]) is Left ==> self.run.todo.len() == 0
    }

    /// The connections ended with these outcomes: `None` for those that left
    /// without an error.
    pub open spec fn ended(self, outcomes: Seq<Option<String>>) -> bool {
        &&& outcomes.len() == self.at.len()
        &&& forall|w: int|
            0 <= w < outcomes.len() && (#[trigger] outcomes[w]) is None ==> self.at[w] is Left
    }
}

proof fn lemma_unfinished_distinct(segs: Seq<Seg>)
    requires
        segs.len() <= usize::MAX,
    ensures
        unfinished(segs).no_duplicates(),
    decreases segs.len(),
{
    if segs.len() > 0 {
        lemma_unfinished_distinct(segs.drop_last());
        lemma_unfinished_bound(segs.drop_last());
    }
}

/// Connections that start a sound run are a sound crew.
pub proof fn a_crew_starts_sound(segs: Seq<Seg>, file: Seq<u8>, n: nat, remote: Seq<u8>)
    requires
        Run::starting(segs, file).sound(remote),
    ensures
        Crew::starting(Run::starting(segs, file), n).sound(remote),
{
    lemma_unfinished_distinct(segs);
    let crew = Crew::starting(Run::starting(segs, file), n);
    assert forall|w: int, i: int| !#[trigger] crew.has(w, i) by {
        if 0 <= w < crew.at.len() {
            assert(crew.at[w] is Free);
        }
    }
}

/// Whatever the connections do, and in whatever order, the crew stays sound,
/// and no byte on disk is ever spoiled.
pub proof fn crews_stay_sound(crew: Crew, ops: Seq<CrewOp>, remote: Seq<u8>)
    requires
        crew.sound(remote),
        crew.allows_all(ops, remote),
    ensures
        crew.after_all(ops, remote).sound(remote),
        crew.after_all(ops, remote).at.len() == crew.at.len(),
        gains(crew.run.file, crew.after_all(ops, remote).run.file, remote),
    decreases ops.len(),
{
    if ops.len() > 0 {
        crews_stay_sound(crew, ops.drop_last(), remote);
        lemma_crew_step(crew.after_all(ops.drop_last(), remote), ops.last(), remote);
    }
}

/// One step of [`crews_stay_sound`].
proof fn lemma_crew_step(crew: Crew, op: CrewOp, remote: Seq<u8>)
    requires
        crew.sound(remote),
        crew.allows(op),
    ensures
        crew.after(op, remote).sound(remote),
        crew.after(op, remote).at.len() == crew.at.len(),
        gains(crew.run.file, crew.after(op, remote).run.file, remote),
{
    let next = crew.after(op, remote);
    let run = crew.run;
    let w = match op {
        CrewOp::Act(w, _) => w,
        CrewOp::Leave(w) => w,
        CrewOp::Fail(w) => w,
    };
    if let CrewOp::Act(_, a) = op {
        lemma_step(run, a, remote);
    }
    // a connection that did nothing has what it had
    assert forall|x: int, i: int| x != w implies #[trigger] next.has(x, i) == crew.has(x, i) by {
        if 0 <= x < crew.at.len() {
            assert(next.at[x] == crew.at[x]);
        }
    }
    let taken: Option<int> = match op {
        CrewOp::Act(_, RunOp::PickUp) => Some(run.todo[0] as int),
        CrewOp::Act(_, RunOp::Steal(_)) => Some(run.segs.len() as int),
        _ => None,
    };
    let laid: Option<int> = match op {
        CrewOp::Act(_, RunOp::LayDown(i)) => Some(i),
        _ => None,
    };
    assert forall|i: int| #[trigger] next.has(w, i) <==> (crew.has(w, i) && laid is None) || taken
        == Some(i) by {
    }
    if let Some(t) = taken {
        assert(!run.hands.contains(t)) by {
            if run.hands.contains(t) && op is Act && op->Act_1 is Steal {
                let x = choose|x: int| #[trigger] crew.has(x, t);
                assert(run.holds(t));
            }
        }
        assert forall|x: int| !#[trigger] crew.has(x, t) by {
            if crew.has(x, t) {
                assert(run.holds(t));
            }
        }
    }
    if let Some(t) = laid {
        assert(crew.has(w, t));
        assert forall|x: int| #[trigger] crew.has(x, t) implies x == w by {
        }
    }
    assert forall|i: int| #[trigger] next.run.hands.contains(i) <==> (run.hands.contains(i) && laid
        != Some(i)) || taken == Some(i) by {
    }
    assert forall|i: int| #[trigger] next.run.hands.contains(i) implies exists|x: int| #[trigger]
        next.has(x, i) by {
        if taken == Some(i) {
            assert(next.has(w, i));
        } else {
            assert(run.hands.contains(i));
            let x = choose|x: int| #[trigger] crew.has(x, i);
            if x == w {
                if let Some(t) = laid {
                    assert(crew.at[w] == Place::At(t));
                    assert(i == t);
                }
            }
            assert(next.has(x, i));
        }
    }
    assert forall|x: int, i: int| #[trigger] next.has(x, i) implies next.run.holds(i) by {
        if taken == Some(i) {
        } else {
            assert(crew.has(x, i));
            assert(run.holds(i));
            if laid == Some(i) {
                assert(x == w);
            }
        }
    }
    assert forall|x: int, y: int, i: int| #[trigger] next.has(x, i) && #[trigger] next.has(
        y,
        i,
    ) implies x == y by {
        if taken == Some(i) {
            assert(!crew.has(x, i) && !crew.has(y, i));
        } else {
            assert(crew.has(x, i) && crew.has(y, i));
        }
    }
    assert forall|k: int| 0 <= k < next.run.todo.len() implies !next.run.hands.contains(
        (#[trigger] next.run.todo[k]) as int,
    ) by {
        if op is Act && op->Act_1 is PickUp {
            assert(next.run.todo[k] == run.todo[k + 1]);
            assert(run.todo[k + 1] != run.todo[0]);
        } else {
            assert(next.run.todo[k] == run.todo[k]);
        }
    }
    assert forall|x: int| 0 <= x < next.at.len() && (#[trigger] next.at[x])
        is Left implies next.run.todo.len() == 0 by {
        if x != w {
            assert(crew.at[x] is Left);
        }
    }
}

/// Connections that all end without an error have fetched the file: no range
/// waits, none is worked on, and every byte is on disk as it is on the server.
pub proof fn a_crew_without_errors_is_done(
    crew: Crew,
    outcomes: Seq<Option<String>>,
    remote: Seq<u8>,
)
    requires
        crew.sound(remote),
        crew.at.len() > 0,
        crew.ended(outcomes),
        first_some(outcomes) is None,
    ensures
        crew.run.is_over(),
        crew.run.file == remote,
{
    assert forall|w: int| 0 <= w < outcomes.len() implies (#[trigger] outcomes[w]) is None by {
        lemma_first_some(outcomes, w);
    }
    assert forall|w: int| 0 <= w < crew.at.len() implies (#[trigger] crew.at[w]) is Left by {
        assert(outcomes[w] is None);
    }
    assert(crew.at[0] is Left);
    assert forall|i: int| !crew.run.hands.contains(i) by {
        if crew.run.hands.contains(i) {
            let w = choose|w: int| #[trigger] crew.has(w, i);
            assert(crew.at[w] is Left);
        }
    }
    a_finished_run_has_the_remote_file(crew.run, remote);
}

proof fn lemma_first_some(outcomes: Seq<Option<String>>, w: int)
    requires
        first_some(outcomes) is None,
        0 <= w < outcomes.len(),
    ensures
        outcomes[w] is None,
    decreases outcomes.len(),
{
    if w > 0 {
        lemma_first_some(outcomes.skip(1), w - 1);
    }
}

/// Ranges that own what those of a sound run own, and count no more of it than
/// those flushed, start a sound run on every file that spoiled nothing.
proof fn lemma_starts_again(run: Run, back: Seq<Seg>, file: Seq<u8>, remote: Seq<u8>)
    requires
        run.sound(remote),
        gains(run.file, file, remote),
        back.len() == run.segs.len(),
        forall|i: int|
            0 <= i < back.len() ==> (#[trigger] back[i]).start == run.segs[i].start && back[i].end
                == run.segs[i].end && back[i].done == back[i].flushed <= run.segs[i].flushed,
    ensures
        Run::starting(back, file).sound(remote),
{
    assert forall|i: int| 0 <= i < back.len() implies {
        &&& (#[trigger] back[i]).start <= back[i].end
        &&& back[i].flushed == back[i].done
        &&& back[i].start + back[i].done <= file.len()
        &&& on_disk(file, remote, back[i])
    } by {
        assert(run.counts_well(i));
        assert(on_disk(run.file, remote, run.segs[i]));
        assert forall|b: int|
            back[i].start <= b < back[i].start + back[i].flushed implies #[trigger] file[b]
            == remote[b] by {
            assert(run.file[b] == remote[b]);
        }
    }
    segment::counters_do_not_matter(run.segs, back, remote.len() as int);
    a_run_starts_sound(back, file, remote);
}

/// What was kept of a range counts what it flushed, or less.
proof fn lemma_revived(run: Run, remote: Seq<u8>)
    requires
        run.sound(remote),
    ensures
        ({
            let back = sidecar::all_revived(sidecar::all_saved(run.segs), true);
            &&& back.len() == run.segs.len()
            &&& forall|i: int|
                0 <= i < back.len() ==> (#[trigger] back[i]).start == run.segs[i].start
                    && back[i].end == run.segs[i].end && back[i].done == back[i].flushed
                    <= run.segs[i].flushed
        }),
{
    let back = sidecar::all_revived(sidecar::all_saved(run.segs), true);
    assert forall|i: int| 0 <= i < back.len() implies (#[trigger] back[i]).start
        == run.segs[i].start && back[i].end == run.segs[i].end && back[i].done == back[i].flushed
        <= run.segs[i].flushed by {
        assert(run.counts_well(i));
        assert(run.segs[i].owns(run.segs[i].end as int));
        assert(segment::owned(run.segs, run.segs[i].end as int));
        assert(sidecar::all_saved(run.segs)[i] == sidecar::saved(run.segs[i]));
        assert(back[i] == sidecar::revived(sidecar::all_saved(run.segs)[i], true));
    }
}

/// A crash spoils nothing: what was kept of a sound run, however long before
/// the program died, starts a sound run on the file as it was left.
pub proof fn a_crash_can_be_survived(
    run: Run,
    ops: Seq<RunOp>,
    file: Seq<u8>,
    remote: Seq<u8>,
)
    requires
        run.sound(remote),
        run.allows_all(ops, remote),
        file == run.after_all(ops, remote).file,
    ensures
        Run::starting(sidecar::all_revived(sidecar::all_saved(run.segs), true), file).sound(remote),
{
    runs_stay_sound(run, ops, remote);
    lemma_revived(run, remote);
    lemma_starts_again(
        run,
        sidecar::all_revived(sidecar::all_saved(run.segs), true),
        file,
        remote,
    );
}

/// A pause spoils nothing: a run that is stopped anywhere and resumed, with
/// what was never flushed forgotten, is a sound run.
pub proof fn a_pause_can_be_ended(run: Run, remote: Seq<u8>)
    requires
        run.sound(remote),
    ensures
        Run::starting(segment::rewound(run.segs), run.file).sound(remote),
{
    assert forall|i: int| 0 <= i < run.segs.len() implies run.counts_well(i) by {
        assert(on_disk(run.file, remote, run.segs[i]));
    }
    lemma_starts_again(run, segment::rewound(run.segs), run.file, remote);
}

/// The ranges that a resumed download starts with: `run` is what it was
/// stopped in, and `kept` its ranges, as they were or as they came back from
/// the disk.
pub open spec fn resumes(run: Run, kept: Seq<Seg>) -> bool {
    kept == run.segs || kept == sidecar::all_revived(sidecar::all_saved(run.segs), true)
}

/// A download that was paused, or survived the program, ends as the same file:
/// whatever the connections of the resumed download do, if none of them ends
/// with an error then every byte is on disk as it is on the server. `file` is
/// the part file when it is resumed, and `kept` are the ranges of the download,
/// of which those are fetched that are not flushed.
pub proof fn a_resumed_download_ends_as_the_same_file(
    run: Run,
    kept: Seq<Seg>,
    file: Seq<u8>,
    n: nat,
    ops: Seq<CrewOp>,
    outcomes: Seq<Option<String>>,
    remote: Seq<u8>,
)
    requires
        run.sound(remote),
        resumes(run, kept),
        gains(run.file, file, remote),
        n > 0,
        Crew::starting(Run::starting(segment::rewound(kept), file), n).allows_all(ops, remote),
        Crew::starting(Run::starting(segment::rewound(kept), file), n).after_all(ops, remote).ended(
            outcomes,
        ),
        first_some(outcomes) is None,
    ensures
        Crew::starting(Run::starting(segment::rewound(kept), file), n).after_all(
            ops,
            remote,
        ).run.file == remote,
{
    let back = segment::rewound(kept);
    lemma_revived(run, remote);
    assert forall|i: int| 0 <= i < back.len() implies (#[trigger] back[i]).start
        == run.segs[i].start && back[i].end == run.segs[i].end && back[i].done == back[i].flushed
        <= run.segs[i].flushed by {
        assert(back[i] == (Seg { done: kept[i].flushed, ..kept[i] }));
    }
    lemma_starts_again(run, back, file, remote);
    a_crew_starts_sound(back, file, n, remote);
    let crew = Crew::starting(Run::starting(back, file), n);
    crews_stay_sound(crew, ops, remote);
    a_crew_without_errors_is_done(crew.after_all(ops, remote), outcomes, remote);
}

/// A new download in pieces ends as the remote file: whatever its connections
/// do, if none of them ends with an error then every byte is on disk as it is
/// on the server.
pub proof fn a_new_download_ends_as_the_remote_file(
    dl: Download,
    info: Remote,
    max_conc: u64,
    file: Seq<u8>,
    n: nat,
    ops: Seq<CrewOp>,
    outcomes: Seq<Option<String>>,
    remote: Seq<u8>,
)
    requires
        max_conc >= 1,
        info.ranges,
        info.len matches Some(len) && len == remote.len() && len > 0,
        dl.segs@ == probe::first_ranges(info, max_conc),
        file.len() == remote.len(),
        n > 0,
        Crew::starting(Run::starting(dl.segs@, file), n).allows_all(ops, remote),
        Crew::starting(Run::starting(dl.segs@, file), n).after_all(ops, remote).ended(outcomes),
        first_some(outcomes) is None,
    ensures
        Crew::starting(Run::starting(dl.segs@, file), n).after_all(ops, remote).run.file == remote,
{
    probe::first_ranges_tile_the_file(info, max_conc);
    let segs = dl.segs@;
    assert(segs.len() == dl.segs.len());
    assert forall|i: int| 0 <= i < segs.len() implies {
        &&& (#[trigger] segs[i]).start <= segs[i].end
        &&& segs[i].flushed == segs[i].done == 0
        &&& segs[i].start <= file.len()
    } by {
        assert(segs[i].well_formed());
        assert(segs[i].owns(segs[i].start as int));
        assert(segment::owned(segs, segs[i].start as int));
    }
    a_run_starts_sound(segs, file, remote);
    a_crew_starts_sound(segs, file, n, remote);
    let crew = Crew::starting(Run::starting(segs, file), n);
    crews_stay_sound(crew, ops, remote);
    a_crew_without_errors_is_done(crew.after_all(ops, remote), outcomes, remote);
}

/// A server that says when to come back is taken at its word, unless that is
/// over half a minute; then half a minute it is. Without its word the first nap
/// lasts five seconds and each one three seconds longer, up to half a minute.
pub proof fn naps_last_as_long_as_asked(s: u64, hits: int)
    requires
        1 <= hits,
    ensures
        s <= 30 ==> busy_nap(Some(s), hits) == s,
        s > 30 ==> busy_nap(Some(s), hits) == 30,
        s <= LONGEST_NAP ==> busy_nap(Some(s), hits) == s,
        s > LONGEST_NAP ==> busy_nap(Some(s), hits) == LONGEST_NAP,
        busy_nap(None, 1) == 5,
        hits < 9 ==> busy_nap(None, hits + 1) == busy_nap(None, hits) + 3,
        hits > 9 ==> busy_nap(None, hits) == 30,
{
}

/// What users are promised in numbers: four megabytes between flushes, seven
/// failures or twelve refusals in a row that a range survives, and naps of half
/// a minute at most.
pub proof fn patience_has_its_limits(retry: Retry)
    ensures
        FLUSH_EVERY == 4 * 1024 * 1024,
        LONGEST_NAP == 30,
        retry.well_formed() <==> retry.attempts <= 7 && retry.rl_hits <= 12,
        SEGMENT_RETRIES == 8 && BUSY_RETRIES == 12,
{
}

/// Failures without a byte received add up; a byte received clears them all.
pub proof fn only_progress_clears_failures(retry: Retry)
    ensures
        carried(retry, false) == retry,
        carried(retry, true).attempts == 0 && carried(retry, true).rl_hits == 0,
{
}

/// A download that was cancelled or paused, or had a final error, begins no
/// further attempt and loses nothing. Any other begins one at the last byte on
/// disk, and forgets of its range what never got there, and of no other.
pub proof fn stopped_downloads_begin_nothing(
    before: Download,
    i: int,
    after: Download,
    r: Option<u64>,
    j: int,
)
    requires
        attempt_begun(before, i, after, r),
        0 <= i < before.segs@.len(),
        0 <= j < before.segs@.len(),
    ensures
        before.cancel || before.pause || before.fatal ==> r is None && after == before,
        !before.cancel && !before.pause && !before.fatal ==> {
            let seg = before.segs@[i];
            &&& r == Some(seg.flushed)
            &&& after.segs@.len() == before.segs@.len()
            &&& after.segs@[i].done == seg.flushed && after.segs@[i].flushed == seg.flushed
            &&& after.segs@[i].start == seg.start && after.segs@[i].end == seg.end
            &&& j != i ==> after.segs@[j] == before.segs@[j]
            &&& seg.flushed <= seg.done && seg.done - seg.flushed <= before.done ==> before.done
                - after.done == seg.done - seg.flushed
            &&& seg.flushed <= seg.done && seg.done - seg.flushed > before.done ==> after.done == 0
            &&& seg.flushed > seg.done ==> after.done == before.done
            &&& after == (Download { segs: after.segs, done: after.done, ..before })
        },
{
}

/// A connection that came to its end has done its range exactly if every byte
/// of it came; either way all that came is on disk, and no other range is
/// touched.
pub proof fn only_complete_ranges_are_done(
    before: Download,
    i: int,
    after: Download,
    r: Result<(), SegErr>,
    j: int,
)
    requires
        sealed(before, i, after, r),
        0 <= i < before.segs@.len(),
        0 <= j < before.segs@.len(),
        before.segs@[i].start <= before.segs@[i].end,
    ensures
        r is Ok <==> before.segs@[i].done >= before.segs@[i].end - before.segs@[i].start + 1,
        r matches Err(e) ==> e is Other,
        after.segs@.len() == before.segs@.len(),
        after.segs@[i].done == before.segs@[i].done,
        after.segs@[i].flushed == before.segs@[i].done,
        after.segs@[i].start == before.segs@[i].start && after.segs@[i].end == before.segs@[i].end,
        j != i ==> after.segs@[j] == before.segs@[j],
        after == (Download { segs: after.segs, ..before }),
{
}

/// Bytes received are counted once, where they belong, and a flush makes what
/// was received safe without touching the count.
pub proof fn received_bytes_are_counted(s: Seg, n: u64)
    requires
        s.done + n <= u64::MAX,
    ensures
        grown(s, n).done - s.done == n,
        grown(s, n).flushed == s.flushed,
        grown(s, n).start == s.start && grown(s, n).end == s.end,
        all_flushed(s).flushed == s.done && all_flushed(s).done == s.done,
        all_flushed(s).start == s.start && all_flushed(s).end == s.end,
{
}

/// The ranges that wait are those that miss bytes: all of them, no other, each
/// once, and the first of the file first.
pub proof fn the_ranges_that_miss_bytes_wait(segs: Seq<Seg>, i: int)
    requires
        segs.len() <= usize::MAX,
        0 <= i < segs.len(),
    ensures
        unfinished(segs).contains(i as usize) <==> segs[i].left() > 0,
        forall|a: int, b: int|
            0 <= a < b < unfinished(segs).len() ==> #[trigger] unfinished(segs)[a]
                < #[trigger] unfinished(segs)[b],
        forall|a: int|
            0 <= a < unfinished(segs).len() ==> #[trigger] unfinished(segs)[a] < segs.len(),
    decreases segs.len(),
{
    if segs[i].left() > 0 {
        lemma_unfinished(segs, i);
    }
    let init = segs.drop_last();
    lemma_unfinished_bound(segs);
    lemma_unfinished_bound(init);
    if init.len() > 0 {
        if i < init.len() {
            the_ranges_that_miss_bytes_wait(init, i);
            if unfinished(segs).contains(i as usize) {
                let k = choose|k: int|
                    0 <= k < unfinished(segs).len() && unfinished(segs)[k] == i as usize;
                assert(unfinished(init)[k] == i as usize);
            }
        } else {
            the_ranges_that_miss_bytes_wait(init, 0);
        }
    }
}

/// A connection without work takes the range that waits longest. If none waits
/// it helps whenever it may and some range misses four megabytes or more; it
/// waits while it may not, and leaves once there is nothing to help with or the
/// download was stopped.
pub proof fn idle_connections_help(
    before: Download,
    todo: Seq<usize>,
    gate: Gate,
    after: Download,
    todo_after: Seq<usize>,
    r: Work,
)
    requires
        work_given(before, todo, gate, after, todo_after, r),
    ensures
        todo.len() > 0 ==> r == Work::Take(todo[0]) && todo == seq![todo[0]] + todo_after
            && after.segs@ == before.segs@,
        todo.len() == 0 ==> todo_after == todo,
        todo.len() == 0 && gate.active_spec() < gate.max_spec() ==> {
            let big = exists|i: int|
                0 <= i < before.segs@.len() && (#[trigger] before.segs@[i]).left() >= 4 * 1024
                    * 1024;
            &&& big ==> r is Take && after.segs@.len() == before.segs@.len() + 1
            &&& !big ==> r is Exit && after.segs@ == before.segs@
        },
        todo.len() == 0 && gate.active_spec() >= gate.max_spec() ==> {
            &&& after.segs@ == before.segs@
            &&& before.cancel || before.pause || before.fatal ==> r is Exit
            &&& !before.cancel && !before.pause && !before.fatal ==> r is Wait
        },
        after == (Download { segs: after.segs, ..before }),
{
    if todo.len() > 0 {
        assert(todo =~= seq![todo[0]] + todo.skip(1));
    } else if gate.active_spec() < gate.max_spec() {
        if let Work::Take(n) = r {
            let v = choose|v: int| #[trigger]
                segment::is_victim(before.segs@, v) && after.segs@ == segment::halved(
                    before.segs@,
                    v,
                );
            assert(before.segs@[v].left() >= 4 * 1024 * 1024);
        }
    }
}

/// The error that came first is the one that counts, and there is none only if
/// no connection had one.
pub proof fn the_first_error_counts(outcomes: Seq<Option<String>>, w: int)
    requires
        0 <= w < outcomes.len(),
        outcomes[w] is Some,
        forall|v: int| 0 <= v < w ==> (#[trigger] outcomes[v]) is None,
    ensures
        first_some(outcomes) == outcomes[w],
    decreases outcomes.len(),
{
    if w > 0 {
        let rest = outcomes.skip(1);
        assert(outcomes[0] is None);
        assert forall|v: int| 0 <= v < w - 1 implies (#[trigger] rest[v]) is None by {
            assert(rest[v] == outcomes[v + 1]);
        }
        the_first_error_counts(rest, w - 1);
    }
}

/// Where there are no errors there is no first one.
pub proof fn no_error_is_made_up(outcomes: Seq<Option<String>>)
    requires
        forall|v: int| 0 <= v < outcomes.len() ==> (#[trigger] outcomes[v]) is None,
    ensures
        first_some(outcomes) is None,
    decreases outcomes.len(),
{
    if outcomes.len() > 0 {
        let rest = outcomes.skip(1);
        assert forall|v: int| 0 <= v < rest.len() implies (#[trigger] rest[v]) is None by {
            assert(rest[v] == outcomes[v + 1]);
        }
        no_error_is_made_up(rest);
    }
}

/// Of a file that is fetched in one go the first range counts every byte, and
/// no other range changes.
pub proof fn the_first_range_counts_a_stream(segs: Seq<Seg>, n: u64, j: int)
    requires
        0 <= j < segs.len(),
        segs[0].done + n <= u64::MAX,
    ensures
        streamed(segs, n).len() == segs.len(),
        streamed(segs, n)[0].done == segs[0].done + n,
        streamed(segs, n)[0].flushed == segs[0].flushed,
        streamed(segs, n)[0].start == segs[0].start && streamed(segs, n)[0].end == segs[0].end,
        j > 0 ==> streamed(segs, n)[j] == segs[j],
{
}

/// A range request can be read: the unit comes first, then the first and the
/// last byte that are wanted, with a dash between them.
pub proof fn range_requests_can_be_read(start: u64, end: u64)
    ensures
        ({
            let t = text::after_prefix(range_text(start as int, end as int), "bytes="@);
            let p = text::pieces(t->0, '-');
            &&& t is Some
            &&& p.len() == 2
            &&& text::parsed(p[0], u64::MAX as nat) == Some(start as nat)
            &&& text::parsed(p[1], u64::MAX as nat) == Some(end as nat)
        }),
{
    let a = text::decimal(start as nat);
    let b = text::decimal(end as nat);
    reveal_strlit("-");
    let t = a.push('-') + b;
    assert(range_text(start as int, end as int) =~= "bytes="@ + t);
    text::beginnings_and_ends_come_off("bytes="@, t, t);
    text::lemma_decimal(start as nat);
    text::lemma_decimal(end as nat);
    assert forall|i: int| 0 <= i < a.len() implies a[i] != '-' by {
        assert(text::is_digit(a[i]));
    }
    assert forall|i: int| 0 <= i < b.len() implies b[i] != '-' by {
        assert(text::is_digit(b[i]));
    }
    text::pieces_come_apart(Seq::empty(), '-', a);
    text::pieces_come_apart(a, '-', b);
    text::number_reads_back(start as nat, u64::MAX as nat);
    text::number_reads_back(end as nat, u64::MAX as nat);
}

/// A server that says how many seconds to wait is understood, blanks around
/// the number or not; one that says nothing, or something else, is not.
pub proof fn waits_are_understood(f: Field, p: Seq<char>, n: u64, q: Seq<char>, i: int)
    requires
        forall|i: int| 0 <= i < p.len() ==> text::is_white(#[trigger] p[i]),
        forall|i: int| 0 <= i < q.len() ==> text::is_white(#[trigger] q[i]),
    ensures
        f matches Field::Text(v) ==> v@ == p + text::decimal(n as nat) + q ==> retry_after_of(f)
            == Some(n as nat),
        !(f is Text) ==> retry_after_of(f) is None,
        f matches Field::Text(v) ==> v@ == p ==> retry_after_of(f) is None,
        f matches Field::Text(v) ==> 0 <= i < v@.len() ==> !text::is_digit(v@[i])
            && !text::is_white(v@[i]) && v@[i] != '+' ==> retry_after_of(f) is None,
{
    if let Field::Text(v) = f {
        text::only_the_ends_are_trimmed(p, Seq::empty(), q, Class::White);
        text::only_digits_are_read(text::trim(p, Class::White), 0, u64::MAX as nat, 0);
        if 0 <= i < v@.len() && !text::is_digit(v@[i]) && !text::is_white(v@[i]) && v@[i] != '+' {
            text::texts_with_other_characters_are_no_numbers(v@, i);
        }
    }
    let d = text::decimal(n as nat);
    text::lemma_decimal(n as nat);
    assert(text::is_digit(d[0]) && text::is_digit(d[d.len() - 1]));
    text::only_the_ends_are_trimmed(p, d, q, Class::White);
    text::number_reads_back(n as nat, u64::MAX as nat);
}

/// Only texts without control characters are sent as headers.
pub proof fn headers_hold_no_control_characters(s: Seq<char>, i: int)
    requires
        0 <= i < s.len(),
    ensures
        s[i] == '\n' || s[i] == '\r' || s[i] == '\0' || (s[i] as u32) == 127 ==> !is_header(s),
        (s[i] as u32) < 32 && s[i] != '\t' ==> !is_header(s),
{
    if is_header(s) {
        assert(foreign::fits_header(s[i]));
    }
}

/// A text whose characters can all be seen, blanks and tabs included, is sent
/// as it is.
pub proof fn plain_texts_can_be_sent(s: Seq<char>)
    requires
        forall|i: int|
            0 <= i < s.len() ==> (#[trigger] s[i]) == '\t' || 32 <= (s[i] as u32) && (s[i] as u32)
                != 127,
    ensures
        is_header(s),
{
}

/// A connection is where it should be if it stands behind the bytes that its
/// range received, and knows how many of them are not on disk.
pub proof fn connections_know_where_they_are(f: Fetch, seg: Seg)
    ensures
        f.tracks(seg) <==> f.pos == seg.start + seg.done && f.since_flush == seg.done - seg.flushed,
        changed_text() == "il file sul server è cambiato: annulla e riscarica da capo"@,
{
}

} // verus!
