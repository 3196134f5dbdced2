//! A download: what was asked for and how far it has come.

use crate::names::{self, FilePath};
use crate::segment::{self, Seg};
use crate::text;
use vstd::prelude::*;
use vstd::string::*;

verus! {

/// What the browser, or the user, asks for.
#[derive(Debug)]
pub struct Job {
    pub url: String,
    pub filename: String,
    pub referrer: String,
    pub cookies: String,
    pub user_agent: String,
}

impl Clone for Job {
    fn clone(&self) -> (r: Job)
        ensures
            r == *self,
    {
        Job {
            url: self.url.clone(),
            filename: self.filename.clone(),
            referrer: self.referrer.clone(),
            cookies: self.cookies.clone(),
            user_agent: self.user_agent.clone(),
        }
    }
}

impl Default for Job {
    fn default() -> (r: Job)
        ensures
            r.url@ == Seq::<char>::empty(),
            r.filename@ == Seq::<char>::empty(),
            r.referrer@ == Seq::<char>::empty(),
            r.cookies@ == Seq::<char>::empty(),
            r.user_agent@ == Seq::<char>::empty(),
    {
        Job {
            url: String::new(),
            filename: String::new(),
            referrer: String::new(),
            cookies: String::new(),
            user_agent: String::new(),
        }
    }
}

/// Where a download stands.
#[derive(Debug, PartialEq, Eq)]
pub enum Status {
    /// Waiting for its turn: as many downloads run as may.
    Queued,
    Connecting,
    Active,
    Paused,
    Done,
    /// Why it failed.
    Failed(String),
    Cancelled,
}

impl Clone for Status {
    fn clone(&self) -> (r: Status)
        ensures
            r == *self,
    {
        match self {
            Status::Queued => Status::Queued,
            Status::Connecting => Status::Connecting,
            Status::Active => Status::Active,
            Status::Paused => Status::Paused,
            Status::Done => Status::Done,
            Status::Failed(e) => Status::Failed(e.clone()),
            Status::Cancelled => Status::Cancelled,
        }
    }
}

impl Status {
    /// Not over: a second download of the same link would be a duplicate.
    pub open spec fn live(self) -> bool {
        self is Queued || self is Connecting || self is Active || self is Paused
    }

    /// At work.
    pub open spec fn busy(self) -> bool {
        self is Active || self is Connecting
    }

    /// At rest, and able to go on.
    pub open spec fn resumable(self) -> bool {
        self is Paused || self is Failed
    }

    /// Whether the download is not over.
    pub fn is_live(&self) -> (r: bool)
        ensures
            r == self.live(),
    {
        match self {
            Status::Queued | Status::Connecting | Status::Active | Status::Paused => true,
            _ => false,
        }
    }

    /// Whether the download is at work.
    pub fn is_busy(&self) -> (r: bool)
        ensures
            r == self.busy(),
    {
        match self {
            Status::Active | Status::Connecting => true,
            _ => false,
        }
    }

    /// Whether the download is at rest and able to go on.
    pub fn is_resumable(&self) -> (r: bool)
        ensures
            r == self.resumable(),
    {
        match self {
            Status::Paused | Status::Failed(_) => true,
            _ => false,
        }
    }

    /// Whether the download failed.
    pub fn is_failed(&self) -> (r: bool)
        ensures
            r == self is Failed,
    {
        match self {
            Status::Failed(_) => true,
            _ => false,
        }
    }
}

/// A download.
#[derive(Debug)]
pub struct Download {
    pub id: u64,
    /// The name shown.
    pub name: String,
    /// Where the file goes; empty until a name was chosen.
    pub path: FilePath,
    /// Size of the file; zero if it is not known.
    pub total: u64,
    /// Bytes received.
    pub done: u64,
    pub segs: Vec<Seg>,
    /// Connections allowed now.
    pub conc: u64,
    /// The server takes ranges: it can go on exactly where it stopped.
    pub resumable: bool,
    pub status: Status,
    pub cancel: bool,
    pub pause: bool,
    /// The remote file's `ETag` or `Last-Modified`, by which a change of the
    /// file is noticed.
    pub validator: Option<String>,
    /// An error that no retry can mend: every connection stops.
    pub fatal: bool,
    pub fatal_msg: String,
    /// Automatic retries used up.
    pub retries: u64,
    /// How many are in front of it in the queue.
    pub queue_pos: u64,
    /// When it was created, in nanoseconds.
    pub started: u64,
    pub job: Job,
}

impl Download {
    /// A new download, about to connect. It is shown under the name that was
    /// asked for, or its link.
    pub fn new(id: u64, job: Job, conc: u64, now: u64) -> (r: Download)
        ensures
            r.id == id,
            r.name@ == if job.filename@.len() == 0 { job.url@ } else { job.filename@ },
            r.path@ == names::at(Seq::empty(), Seq::empty()),
            r.total == 0,
            r.done == 0,
            r.segs@ == Seq::<Seg>::empty(),
            r.conc == conc,
            !r.resumable,
            r.status == Status::Connecting,
            !r.cancel,
            !r.pause,
            r.validator is None,
            !r.fatal,
            r.fatal_msg@ == Seq::<char>::empty(),
            r.retries == 0,
            r.queue_pos == 0,
            r.started == now,
            r.job == job,
    {
        let name = if job.filename.as_str().unicode_len() == 0 {
            job.url.clone()
        } else {
            job.filename.clone()
        };
        Download {
            id,
            name,
            path: FilePath::empty(),
            total: 0,
            done: 0,
            segs: Vec::new(),
            conc,
            resumable: false,
            status: Status::Connecting,
            cancel: false,
            pause: false,
            validator: None,
            fatal: false,
            fatal_msg: String::new(),
            retries: 0,
            queue_pos: 0,
            started: now,
            job,
        }
    }

    /// An error that no retry can mend: every connection is to stop.
    pub fn set_fatal(&mut self, msg: &str)
        ensures
            *final(self) == (Download {
                fatal: true,
                fatal_msg: final(self).fatal_msg,
                ..*old(self)
            }),
            final(self).fatal_msg@ == msg@,
    {
        self.fatal_msg = text::owned(msg);
        self.fatal = true;
    }

    /// A connection is to drop everything: paused, cancelled, or beyond
    /// repair.
    pub open spec fn stopped(self) -> bool {
        self.cancel || self.pause || self.fatal
    }

    /// Whether a connection is to drop everything.
    pub fn interrupted(&self) -> (r: bool)
        ensures
            r == self.stopped(),
    {
        self.cancel || self.pause || self.fatal
    }
}

/// The download with one of its ranges replaced.
pub open spec fn with_seg(dl: Download, i: int, s: Seg, after: Download) -> bool {
    &&& after == (Download { segs: after.segs, ..dl })
    &&& after.segs@ == dl.segs@.update(i, s)
}

/// A download that was cancelled is to stop, one that was paused, and one with
/// an error that no retry can mend; any other goes on.
pub proof fn every_stop_is_a_stop(d: Download)
    ensures
        d.cancel ==> d.stopped(),
        d.pause ==> d.stopped(),
        d.fatal ==> d.stopped(),
        !d.cancel && !d.pause && !d.fatal ==> !d.stopped(),
{
}

/// A download is not over while it waits, connects, runs or is paused; it is
/// over once it is done, failed or was cancelled. It is at work while it
/// connects or runs, and able to go on when it is paused or failed.
pub proof fn every_status_means_something(e: String)
    ensures
        Status::Queued.live() && !Status::Queued.busy() && !Status::Queued.resumable(),
        Status::Connecting.live() && Status::Connecting.busy() && !Status::Connecting.resumable(),
        Status::Active.live() && Status::Active.busy() && !Status::Active.resumable(),
        Status::Paused.live() && !Status::Paused.busy() && Status::Paused.resumable(),
        !Status::Done.live() && !Status::Done.busy() && !Status::Done.resumable(),
        !Status::Failed(e).live() && !Status::Failed(e).busy() && Status::Failed(e).resumable(),
        !Status::Cancelled.live() && !Status::Cancelled.busy() && !Status::Cancelled.resumable(),
{
}

/// Replacing a range replaces that one alone, and nothing else of a download.
pub proof fn one_range_is_replaced(d: Download, i: int, s: Seg, after: Download, j: int)
    requires
        with_seg(d, i, s, after),
        0 <= i < d.segs@.len(),
        0 <= j < d.segs@.len(),
    ensures
        after.segs@.len() == d.segs@.len(),
        after.segs@[i] == s,
        j != i ==> after.segs@[j] == d.segs@[j],
        after == (Download { segs: after.segs, ..d }),
{
}

} // verus!
