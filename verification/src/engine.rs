//! The downloads of the program and what becomes of them: how a job enters,
//! waits for its turn, ends, is retried, is resumed.

use crate::config::{self, Config, ConfigView, Store};
use crate::history::{self, Entry};
use crate::limiter::Limiter;
use crate::names::{self, FilePath};
use crate::notify;
use crate::num;
use crate::probe;
use crate::queue::{self, Queue, Slot, Turn};
use crate::segment;
use crate::sidecar::{self, Sidecar};
use crate::text;
use crate::transfer;
use crate::update::{self, UpdateInfo};
use crate::url;
use vstd::prelude::*;
use vstd::string::*;

pub use crate::download::{Download, Job, Status};
pub use crate::segment::Seg;
pub use crate::url::system_proxy;

verus! {

/// No download ever uses more connections than this.
pub const MAX_CONNECTIONS: u64 = config::MAX_CONNECTIONS_CAP;

/// No settings make a download retry by itself more often than this.
pub const MAX_RETRIES: u64 = 10;

/// How many lines of the log are kept in memory.
pub const LOG_LINES: usize = 200;

/// From this size on the log file is put aside and a new one begun.
pub const LOG_MAX_BYTES: u64 = 2 * 1024 * 1024;

/// Everything the program knows.
#[derive(Debug)]
pub struct AppState {
    pub downloads: Vec<Download>,
    /// The last lines of the log.
    pub log: Vec<String>,
    /// The window is to be shown.
    pub show_window: bool,
    /// The program is to end.
    pub quit: bool,
    /// A newer release, if one was found.
    pub update: Option<UpdateInfo>,
    /// A newer release is being installed.
    pub updating: bool,
    pub config: Store,
    pub limiter: Limiter,
    pub queue: Queue,
    pub next_id: u64,
}

/// The log after one more line: the last lines of it.
pub open spec fn appended(log: Seq<Seq<char>>, line: Seq<char>) -> Seq<Seq<char>> {
    let all = log.push("> "@ + line);
    all.skip(num::max_of(all.len() - LOG_LINES, 0))
}

/// `after` is the log `before` with one more line.
pub open spec fn logged(before: Vec<String>, after: Vec<String>, line: Seq<char>) -> bool {
    history::text_views(after@) == appended(history::text_views(before@), line)
}

impl AppState {
    /// The parts are well formed, the log is not too long, no two downloads
    /// have the same number, and none was ever retried by itself more often
    /// than the settings can say.
    pub open spec fn well_formed(self) -> bool {
        &&& self.config.well_formed()
        &&& self.limiter.well_formed()
        &&& self.queue.well_formed()
        &&& self.log@.len() <= LOG_LINES
        &&& forall|i: int|
            0 <= i < self.downloads@.len() ==> (#[trigger] self.downloads@[i]).id < self.next_id
                && self.downloads@[i].retries <= MAX_RETRIES
        &&& forall|i: int, j: int|
            0 <= i < j < self.downloads@.len() ==> (#[trigger] self.downloads@[i]).id != (
            #[trigger] self.downloads@[j]).id
    }

    /// A download of the link `url` that is not over.
    pub open spec fn has_live(self, url: Seq<char>) -> bool {
        exists|i: int|
            0 <= i < self.downloads@.len() && (#[trigger] self.downloads@[i]).job.url@ == url
                && self.downloads@[i].status.live()
    }

    /// Starts with the given settings, in force at once.
    pub fn with_config(config: Store, now: u64) -> (r: AppState)
        requires
            config.well_formed(),
        ensures
            r.well_formed(),
            r.config == config,
            r.downloads@.len() == 0,
            r.log@.len() == 0,
            !r.show_window,
            !r.quit,
            r.update is None,
            !r.updating,
            r.next_id == 0,
            r.limiter@ == (crate::limiter::Bucket {
                limit: config.config().speed_limit_kbps as int,
                tokens: 0,
                last: now as int,
            }),
            r.queue@ == (queue::QueueState {
                limit: num::max_of(config.config().max_concurrent_downloads as int, 1),
                active: 0,
                next: 0,
                head: 0,
                gone: Set::empty(),
            }),
    {
        let mut r = AppState {
            downloads: Vec::new(),
            log: Vec::new(),
            show_window: false,
            quit: false,
            update: None,
            updating: false,
            config,
            limiter: Limiter::new(0, now),
            queue: Queue::default(),
            next_id: 0,
        };
        r.apply_config();
        r
    }

    /// Puts the settings in force: bandwidth and queue follow without a
    /// restart.
    pub fn apply_config(&mut self)
        requires
            old(self).well_formed(),
        ensures
            final(self).well_formed(),
            *final(self) == (AppState {
                limiter: final(self).limiter,
                queue: final(self).queue,
                ..*old(self)
            }),
            final(self).limiter@ == (crate::limiter::Bucket {
                limit: old(self).config.config().speed_limit_kbps as int,
                ..old(self).limiter@
            }),
            final(self).queue@ == old(self).queue@.limited(
                old(self).config.config().max_concurrent_downloads as int,
            ),
    {
        let cfg = self.config.get();
        self.limiter.set_limit(cfg.speed_limit_kbps);
        self.queue.set_limit(cfg.max_concurrent_downloads);
    }

    /// Changes the settings, moves what is out of range back, schedules a save
    /// and puts them in force.
    pub fn change_settings(&mut self, new: Config, now: u64)
        requires
            old(self).well_formed(),
            new.well_formed(),
        ensures
            final(self).well_formed(),
            *final(self) == (AppState {
                config: final(self).config,
                limiter: final(self).limiter,
                queue: final(self).queue,
                ..*old(self)
            }),
            final(self).config.config() == new@.clamped(),
            final(self).config.edited_at() == Some(now),
            final(self).config.is_saving() == old(self).config.is_saving(),
            final(self).limiter@ == (crate::limiter::Bucket {
                limit: new.speed_limit_kbps as int,
                ..old(self).limiter@
            }),
            final(self).queue@ == old(self).queue@.limited(
                new@.clamped().max_concurrent_downloads as int,
            ),
    {
        let f = |c: &mut Config|
            requires
                c.well_formed(),
            ensures
                final(c).well_formed(),
                final(c)@ == new@,
            {
                *c = new;
            };
        self.config.edit(f, now);
        self.apply_config();
    }

    /// Where files go: the folder of the settings, which may have to be
    /// created, else the system's.
    pub fn dl_dir(&self, system: Option<String>) -> (r: Result<String, String>)
        requires
            self.well_formed(),
        ensures
            ({
                let dir = self.config.config().download_dir;
                match r {
                    Ok(d) => if dir.len() > 0 { d@ == dir } else { probe::opt_view(system) == Some(d@) },
                    Err(e) => dir.len() == 0 && system is None && e@
                        == "cartella Downloads non trovata"@,
                }
            }),
    {
        let cfg = self.config.get();
        if cfg.download_dir.as_str().unicode_len() > 0 {
            return Ok(cfg.download_dir);
        }
        match system {
            Some(d) => Ok(d),
            None => Err(text::owned("cartella Downloads non trovata")),
        }
    }

    /// The most connections a download may use.
    pub fn max_conc(&self) -> (r: u64)
        requires
            self.well_formed(),
        ensures
            r == self.config.config().max_connections,
            1 <= r <= MAX_CONNECTIONS,
    {
        proof {
            self.config.lemma_in_range();
        }
        self.config.get().max_connections
    }

    /// Adds a line to the log in memory, of which the last lines are kept.
    pub fn log(&mut self, line: &str)
        requires
            old(self).well_formed(),
        ensures
            final(self).well_formed(),
            *final(self) == (AppState { log: final(self).log, ..*old(self) }),
            logged(old(self).log, final(self).log, line@),
    {
        let ghost before = history::text_views(self.log@);
        let entry = text::join("> ", line);
        self.log.push(entry);
        let ghost all = before.push("> "@ + line@);
        assert(history::text_views(self.log@) =~= all);
        if self.log.len() > LOG_LINES {
            let ghost full = self.log@;
            let _ = self.log.remove(0);
            assert(self.log@ =~= full.remove(0));
            assert(history::text_views(self.log@) =~= all.skip(1));
        } else {
            assert(all.skip(0) =~= all);
        }
    }

    /// Empties the log in memory.
    pub fn clear_log(&mut self)
        requires
            old(self).well_formed(),
        ensures
            final(self).well_formed(),
            *final(self) == (AppState { log: final(self).log, ..*old(self) }),
            final(self).log@.len() == 0,
    {
        self.log.clear();
    }
}

impl Default for AppState {
    /// The default settings and nothing else, at time zero.
    fn default() -> (r: AppState)
        ensures
            r.well_formed(),
            r.config.config() == ConfigView::initial(),
            r.config.edited_at() is None,
            !r.config.is_saving(),
            r.downloads@.len() == 0,
            r.log@.len() == 0,
            !r.show_window,
            !r.quit,
            r.update is None,
            !r.updating,
            r.next_id == 0,
            r.limiter@ == (crate::limiter::Bucket { limit: 0, tokens: 0, last: 0 }),
            r.queue@ == (queue::QueueState {
                limit: 3,
                active: 0,
                next: 0,
                head: 0,
                gone: Set::empty(),
            }),
    {
        AppState::with_config(Store::default(), 0)
    }
}

impl AppState {
    /// The place of the download with the given number, if there is one.
    pub fn find(&self, id: u64) -> (r: Option<usize>)
        ensures
            match r {
                Some(k) => k < self.downloads@.len() && self.downloads@[k as int].id == id,
                None => forall|i: int|
                    0 <= i < self.downloads@.len() ==> (#[trigger] self.downloads@[i]).id != id,
            },
    {
        let mut i: usize = 0;
        while i < self.downloads.len()
            invariant
                i <= self.downloads@.len(),
                forall|j: int| 0 <= j < i ==> (#[trigger] self.downloads@[j]).id != id,
            decreases self.downloads@.len() - i,
        {
            if self.downloads[i].id == id {
                return Some(i);
            }
            i = i + 1;
        }
        None
    }

    fn is_duplicate(&self, url: &str) -> (r: bool)
        ensures
            r == self.has_live(url@),
    {
        let mut i: usize = 0;
        while i < self.downloads.len()
            invariant
                i <= self.downloads@.len(),
                forall|j: int|
                    0 <= j < i ==> !((#[trigger] self.downloads@[j]).job.url@ == url@
                        && self.downloads@[j].status.live()),
            decreases self.downloads@.len() - i,
        {
            let d = &self.downloads[i];
            if text::same(d.job.url.as_str(), url) && d.status.is_live() {
                assert(self.downloads@[i as int].job.url@ == url@);
                return true;
            }
            i = i + 1;
        }
        false
    }

    /// Makes a download for a job and numbers it. It is not listed yet.
    pub fn new_download(&mut self, job: Job, now: u64) -> (r: Download)
        requires
            old(self).well_formed(),
            old(self).next_id < u64::MAX,
        ensures
            final(self).well_formed(),
            *final(self) == (AppState {
                next_id: (old(self).next_id + 1) as u64,
                ..*old(self)
            }),
            is_new(r, old(self).next_id, job, old(self).config.config().max_connections, now),
    {
        let conc: u64 = self.max_conc();
        let id: u64 = self.next_id;
        self.next_id = id + 1;
        Download::new(id, job, conc, now)
    }

    /// Takes a job in. A job whose link is already being downloaded, or waits
    /// to be, is ignored; any other is listed, to wait for its turn. Returns
    /// the place of the new download. Either way the window is shown.
    pub fn submit(&mut self, job: Job, now: u64) -> (r: Option<usize>)
        requires
            old(self).well_formed(),
            old(self).next_id < u64::MAX,
        ensures
            final(self).well_formed(),
            *final(self) == (AppState {
                downloads: final(self).downloads,
                log: final(self).log,
                next_id: final(self).next_id,
                show_window: true,
                ..*old(self)
            }),
            match r {
                None => {
                    &&& old(self).has_live(job.url@)
                    &&& final(self).downloads@ == old(self).downloads@
                    &&& final(self).next_id == old(self).next_id
                    &&& logged(
                        old(self).log,
                        final(self).log,
                        "ignorato (già in lista): "@ + job.url@,
                    )
                },
                Some(k) => {
                    let d = final(self).downloads@[k as int];
                    &&& !old(self).has_live(job.url@)
                    &&& k == old(self).downloads@.len()
                    &&& final(self).downloads@ == old(self).downloads@.push(d)
                    &&& d.status == Status::Queued
                    &&& is_new(
                        Download { status: Status::Connecting, ..d },
                        old(self).next_id,
                        job,
                        old(self).config.config().max_connections,
                        now,
                    )
                    &&& final(self).next_id == old(self).next_id + 1
                    &&& logged(old(self).log, final(self).log, "nuovo job: "@ + job.url@)
                },
            },
    {
        self.show_window = true;
        let url = job.url.clone();
        if self.is_duplicate(url.as_str()) {
            self.log(text::join("ignorato (già in lista): ", url.as_str()).as_str());
            return None;
        }
        let mut d = self.new_download(job, now);
        d.status = Status::Queued;
        let k: usize = self.downloads.len();
        self.downloads.push(d);
        self.log(text::join("nuovo job: ", url.as_str()).as_str());
        Some(k)
    }

    /// Lists a download that is brought back from its sidecar, paused.
    pub fn restore(&mut self, sc: Sidecar, path: FilePath, now: u64)
        requires
            old(self).well_formed(),
            old(self).next_id < u64::MAX,
            segment::total_flushed(sidecar::all_revived(sc.segments@, sc.resumable)) <= u64::MAX,
        ensures
            final(self).well_formed(),
            *final(self) == (AppState {
                downloads: final(self).downloads,
                log: final(self).log,
                next_id: (old(self).next_id + 1) as u64,
                ..*old(self)
            }),
            final(self).downloads@.len() == old(self).downloads@.len() + 1,
            final(self).downloads@.drop_last() == old(self).downloads@,
            ({
                let d = final(self).downloads@.last();
                let segs = sidecar::all_revived(sc.segments@, sc.resumable);
                &&& d.id == old(self).next_id
                &&& d.name@ == path@.shown()
                &&& d.path == path
                &&& d.total == sc.total
                &&& d.done == segment::total_flushed(segs)
                &&& d.segs@ == segs
                &&& d.resumable == sc.resumable
                &&& d.validator == sc.validator
                &&& d.job == sc.job
                &&& d.status == Status::Paused
                &&& !d.stopped()
                &&& d.fatal_msg@.len() == 0
                &&& d.retries == 0
                &&& d.conc == old(self).config.config().max_connections
                &&& d.queue_pos == 0
                &&& d.started == now
            }),
            logged(
                old(self).log,
                final(self).log,
                "ripristinato dal disco: "@ + path@.shown() + " (riprendi quando vuoi)"@,
            ),
    {
        let base = self.new_download(sc.job.clone(), now);
        let name = path.shown_name();
        let d = sidecar::restore(base, sc, path);
        self.downloads.push(d);
        assert(self.downloads@.drop_last() =~= old(self).downloads@);
        let mut line: String = text::join("ripristinato dal disco: ", name.as_str());
        line.append(" (riprendi quando vuoi)");
        self.log(line.as_str());
    }
}

/// `d` is a fresh download for `job`.
pub open spec fn is_new(d: Download, id: u64, job: Job, conc: u64, now: u64) -> bool {
    &&& d.id == id
    &&& d.name@ == if job.filename@.len() == 0 { job.url@ } else { job.filename@ }
    &&& d.path@ == names::at(Seq::empty(), Seq::empty())
    &&& d.total == 0
    &&& d.done == 0
    &&& d.segs@.len() == 0
    &&& d.conc == conc
    &&& !d.resumable
    &&& d.status == Status::Connecting
    &&& !d.stopped()
    &&& d.validator is None
    &&& d.fatal_msg@.len() == 0
    &&& d.retries == 0
    &&& d.queue_pos == 0
    &&& d.started == now
    &&& d.job == job
}

/// No two downloads that are not over have the same link.
pub open spec fn no_live_twins(downloads: Seq<Download>) -> bool {
    forall|i: int, j: int|
        0 <= i < j < downloads.len() && (#[trigger] downloads[i]).status.live() && (
        #[trigger] downloads[j]).status.live() ==> downloads[i].job.url@ != downloads[j].job.url@
}

/// A job taken in never makes a twin: where no two downloads of one link were
/// under way, none are afterwards.
pub proof fn jobs_never_make_twins(before: Seq<Download>, d: Download)
    requires
        no_live_twins(before),
        !(exists|i: int|
            0 <= i < before.len() && (#[trigger] before[i]).job.url@ == d.job.url@
                && before[i].status.live()),
    ensures
        no_live_twins(before.push(d)),
{
    let after = before.push(d);
    assert forall|i: int, j: int|
        0 <= i < j < after.len() && (#[trigger] after[i]).status.live() && (
        #[trigger] after[j]).status.live() implies after[i].job.url@ != after[j].job.url@ by {
        if j == before.len() {
            assert(before[i].status.live());
        }
    }
}

/// The waits between automatic retries, in seconds: short, longer, and from
/// then on the longest.
pub open spec fn backoff(n: int) -> int {
    if n == 0 { 5 } else if n == 1 { 15 } else { 45 }
}

/// `after` lists the same downloads as `before`, but for the `k`-th.
pub open spec fn others_kept(before: AppState, after: AppState, k: int) -> bool {
    &&& after.downloads@.len() == before.downloads@.len()
    &&& after.downloads@ == before.downloads@.update(k, after.downloads@[k])
}

impl AppState {
    /// A download joins the queue and gets a ticket. New jobs and those that
    /// are resumed all pass through here: otherwise "resume all" would start
    /// everything at once.
    pub fn join_queue(&mut self, k: usize) -> (r: u64)
        requires
            old(self).well_formed(),
            k < old(self).downloads@.len(),
            old(self).queue@.next < u64::MAX,
        ensures
            final(self).well_formed(),
            *final(self) == (AppState {
                downloads: final(self).downloads,
                log: final(self).log,
                queue: final(self).queue,
                ..*old(self)
            }),
            r == old(self).queue@.next,
            final(self).queue@ == old(self).queue@.ticketed(),
            others_kept(*old(self), *final(self), k as int),
            ({
                let d = old(self).downloads@[k as int];
                let pos = queue::ahead(old(self).queue@.head, r as int, old(self).queue@.gone);
                &&& final(self).downloads@[k as int] == (Download {
                    status: Status::Queued,
                    queue_pos: pos as u64,
                    ..d
                })
                &&& 0 <= pos <= u64::MAX
                &&& if pos > 0 {
                    logged(
                        old(self).log,
                        final(self).log,
                        "in coda ("@ + text::decimal(pos as nat) + " davanti): "@ + d.name@,
                    )
                } else {
                    final(self).log == old(self).log
                }
            }),
    {
        let ticket: u64 = self.queue.ticket();
        let pos: u64 = self.queue.position(ticket);
        self.downloads[k].status = Status::Queued;
        self.downloads[k].queue_pos = pos;
        assert(self.downloads@ =~= old(self).downloads@.update(k as int, self.downloads@[k as int]));
        if pos > 0 {
            let mut line: String = text::join("in coda (", text::number(pos).as_str());
            line.append(" davanti): ");
            line.append(self.downloads[k].name.as_str());
            self.log(line.as_str());
        }
        ticket
    }

    /// A waiting download asks for its turn. One that was cancelled meanwhile
    /// gives its ticket up.
    pub fn ask_turn(&mut self, k: usize, ticket: u64) -> (r: Turn)
        requires
            old(self).well_formed(),
            k < old(self).downloads@.len(),
            ticket < old(self).queue@.next,
        ensures
            final(self).well_formed(),
            *final(self) == (AppState {
                downloads: final(self).downloads,
                log: final(self).log,
                queue: final(self).queue,
                ..*old(self)
            }),
            others_kept(*old(self), *final(self), k as int),
            ({
                let d = old(self).downloads@[k as int];
                let q = old(self).queue@;
                match r {
                    Turn::Granted(s) => {
                        &&& !d.cancel
                        &&& q.admits(ticket as int)
                        &&& s.ticket_spec() == ticket
                        &&& final(self).queue@ == q.entered()
                        &&& final(self).downloads@[k as int] == (Download {
                            status: Status::Connecting,
                            queue_pos: 0,
                            ..d
                        })
                        &&& final(self).log == old(self).log
                    },
                    Turn::GivenUp => {
                        &&& d.cancel
                        &&& final(self).queue@ == q.without(ticket)
                        &&& final(self).downloads@[k as int] == (Download {
                            status: Status::Cancelled,
                            queue_pos: 0,
                            ..d
                        })
                        &&& logged(
                            old(self).log,
                            final(self).log,
                            "annullato in coda: "@ + d.name@,
                        )
                    },
                    Turn::Wait => {
                        &&& !d.cancel
                        &&& !q.admits(ticket as int)
                        &&& final(self).queue@ == q
                        &&& final(self).downloads@[k as int] == (Download {
                            queue_pos: final(self).downloads@[k as int].queue_pos,
                            ..d
                        })
                        &&& final(self).downloads@[k as int].queue_pos == queue::ahead(
                            q.head,
                            ticket as int,
                            q.gone,
                        )
                        &&& final(self).log == old(self).log
                    },
                }
            }),
    {
        let abort = self.downloads[k].cancel;
        let turn = self.queue.enter(ticket, abort);
        match &turn {
            Turn::Granted(_) => {
                self.downloads[k].queue_pos = 0;
                self.downloads[k].status = Status::Connecting;
            },
            Turn::GivenUp => {
                self.downloads[k].queue_pos = 0;
                self.downloads[k].status = Status::Cancelled;
                let line = text::join("annullato in coda: ", self.downloads[k].name.as_str());
                self.log(line.as_str());
            },
            Turn::Wait => {
                let pos: u64 = self.queue.position(ticket);
                self.downloads[k].queue_pos = pos;
            },
        }
        assert(self.downloads@ =~= old(self).downloads@.update(k as int, self.downloads@[k as int]));
        turn
    }

    /// A download that had its turn is over: the next may start.
    pub fn end_turn(&mut self, slot: Slot)
        requires
            old(self).well_formed(),
            old(self).queue@.active > 0,
        ensures
            final(self).well_formed(),
            *final(self) == (AppState { queue: final(self).queue, ..*old(self) }),
            final(self).queue@ == old(self).queue@.left(),
    {
        self.queue.leave(slot);
    }

    /// A failed download is to be retried by itself: the error was not final,
    /// it was not cancelled, and it has retries left.
    pub open spec fn retries_again(self, k: int) -> bool {
        let d = self.downloads@[k];
        d.status is Failed && d.retries < self.config.config().auto_retry && !d.fatal && !d.cancel
    }

    /// Decides whether a download is retried by itself, and after how many
    /// seconds.
    pub fn retry(&mut self, k: usize) -> (r: Option<u64>)
        requires
            old(self).well_formed(),
            k < old(self).downloads@.len(),
        ensures
            final(self).well_formed(),
            *final(self) == (AppState {
                downloads: final(self).downloads,
                log: final(self).log,
                ..*old(self)
            }),
            ({
                let d = old(self).downloads@[k as int];
                if old(self).retries_again(k as int) {
                    &&& r == Some(backoff(d.retries as int) as u64)
                    &&& others_kept(*old(self), *final(self), k as int)
                    &&& final(self).downloads@[k as int] == (Download {
                        retries: (d.retries + 1) as u64,
                        ..d
                    })
                    &&& logged(
                        old(self).log,
                        final(self).log,
                        "ritento tra "@ + text::decimal(backoff(d.retries as int) as nat) + "s ("@
                            + text::decimal((d.retries + 1) as nat) + "/"@ + text::decimal(
                            old(self).config.config().auto_retry as nat,
                        ) + "): "@ + d.name@,
                    )
                } else {
                    &&& r is None
                    &&& final(self).downloads@ == old(self).downloads@
                    &&& final(self).log == old(self).log
                }
            }),
    {
        proof {
            self.config.lemma_in_range();
        }
        let max: u64 = self.config.get().auto_retry;
        let d = &self.downloads[k];
        let n: u64 = d.retries;
        if !d.status.is_failed() || n >= max || d.fatal || d.cancel {
            return None;
        }
        let wait: u64 = if n == 0 { 5 } else if n == 1 { 15 } else { 45 };
        let mut line: String = text::join("ritento tra ", text::number(wait).as_str());
        line.append("s (");
        line.append(text::number(n + 1).as_str());
        line.append("/");
        line.append(text::number(max).as_str());
        line.append("): ");
        line.append(d.name.as_str());
        self.downloads[k].retries = n + 1;
        self.log(line.as_str());
        Some(wait)
    }

    /// Whether a download that waited for a retry is still to be retried: it
    /// was neither cancelled nor paused meanwhile.
    pub fn retry_goes_on(&self, k: usize) -> (r: bool)
        requires
            k < self.downloads@.len(),
        ensures
            r == (!self.downloads@[k as int].cancel && !self.downloads@[k as int].pause),
    {
        !self.downloads[k].cancel && !self.downloads[k].pause
    }

    /// Begins to resume a download that is paused or failed; any other is left
    /// alone.
    pub fn begin_resume(&mut self, k: usize) -> (r: bool)
        requires
            old(self).well_formed(),
            k < old(self).downloads@.len(),
        ensures
            final(self).well_formed(),
            *final(self) == (AppState {
                downloads: final(self).downloads,
                log: final(self).log,
                ..*old(self)
            }),
            ({
                let d = old(self).downloads@[k as int];
                if d.status.resumable() {
                    &&& r
                    &&& others_kept(*old(self), *final(self), k as int)
                    &&& final(self).downloads@[k as int] == (Download {
                        status: Status::Connecting,
                        pause: false,
                        cancel: false,
                        fatal: false,
                        ..d
                    })
                    &&& logged(old(self).log, final(self).log, "riprendo: "@ + d.name@)
                } else {
                    &&& !r
                    &&& final(self).downloads@ == old(self).downloads@
                    &&& final(self).log == old(self).log
                }
            }),
    {
        if !self.downloads[k].status.is_resumable() {
            return false;
        }
        self.downloads[k].status = Status::Connecting;
        self.downloads[k].pause = false;
        self.downloads[k].cancel = false;
        self.downloads[k].fatal = false;
        assert(self.downloads@ =~= old(self).downloads@.update(k as int, self.downloads@[k as int]));
        let line = text::join("riprendo: ", self.downloads[k].name.as_str());
        self.log(line.as_str());
        true
    }
}

/// What is to be done when a download has ended.
#[derive(Debug)]
pub struct Finish {
    /// Keep its state beside the part file: it can go on.
    pub save: bool,
    /// Delete the part file and what is kept beside it.
    pub erase: bool,
    /// Notify the user, with this title and text.
    pub notice: Option<(String, String)>,
    /// Add this to the history.
    pub entry: Option<Entry>,
}

/// A download has a file: its name was chosen before it ended.
pub open spec fn has_file(d: Download) -> bool {
    !(d.path@.dir.len() == 0 && d.path@.name.len() == 0 && d.path@.tail.len() == 0)
}

/// Whether a download that begins at its first byte chooses a name: a new one
/// does, and so does one that is tried again after it failed before it had a
/// name.
pub fn names_anew(d: &Download, fresh: bool) -> (r: bool)
    ensures
        r == (fresh || !has_file(*d)),
{
    fresh || d.path.is_empty()
}

/// Why a download failed: a final error came first, and what ended this
/// connection may be no more than its echo.
pub open spec fn failure_text(d: Download, why: Seq<char>) -> Seq<char> {
    if d.fatal { d.fatal_msg@ } else { why }
}

/// The status of a download after it ended.
pub open spec fn ended_as(d: Download, outcome: Result<String, String>, s: Status) -> bool {
    match outcome {
        Ok(_) => s is Done,
        Err(why) => if d.pause {
            s is Paused
        } else if d.cancel {
            s is Cancelled
        } else {
            s matches Status::Failed(m) && m@ == failure_text(d, why@)
        },
    }
}

/// What the log says of a download that ended.
pub open spec fn ended_line(d: Download, outcome: Result<String, String>) -> Seq<char> {
    match outcome {
        Ok(shown) => "completato: "@ + shown@,
        Err(why) => if d.pause {
            "in pausa: "@ + d.name@
        } else if d.cancel {
            "annullato: "@ + d.name@
        } else {
            "ERRORE: "@ + failure_text(d, why@) + " — url: "@ + d.job.url@
        },
    }
}

impl AppState {
    /// Decides how a resumed download goes on, once it has its turn: exactly
    /// where it stopped if the server takes ranges, the size is known and the
    /// part file is still there, otherwise from the start. Only bytes that were
    /// flushed are on disk; the others are fetched again.
    pub fn plan_resume(&mut self, k: usize, part_exists: bool) -> (r: bool)
        requires
            old(self).well_formed(),
            k < old(self).downloads@.len(),
            ({
                let d = old(self).downloads@[k as int];
                d.resumable && d.total > 0 && part_exists ==> segment::total_flushed(d.segs@)
                    <= u64::MAX
            }),
        ensures
            final(self).well_formed(),
            *final(self) == (AppState { downloads: final(self).downloads, ..*old(self) }),
            ({
                let d = old(self).downloads@[k as int];
                let e = final(self).downloads@[k as int];
                &&& r == (d.resumable && d.total > 0 && part_exists)
                &&& if r {
                    &&& others_kept(*old(self), *final(self), k as int)
                    &&& e == (Download {
                        segs: e.segs,
                        done: e.done,
                        status: Status::Active,
                        ..d
                    })
                    &&& e.segs@ == segment::rewound(d.segs@)
                    &&& e.done == segment::total_flushed(d.segs@)
                } else {
                    final(self).downloads@ == old(self).downloads@
                }
            }),
    {
        if !(self.downloads[k].resumable && self.downloads[k].total > 0 && part_exists) {
            return false;
        }
        let sum: u64 = segment::rewind_all(&mut self.downloads[k].segs);
        self.downloads[k].done = sum;
        self.downloads[k].status = Status::Active;
        assert(self.downloads@ =~= old(self).downloads@.update(
            k as int,
            self.downloads@[k as int],
        ));
        true
    }

    /// Ends a download: `outcome` is the path of the complete file as it is
    /// shown, or the error. A pause or a cancellation shows up as an error and
    /// goes first; a pause goes before a cancellation.
    pub fn finish(&mut self, k: usize, outcome: Result<String, String>, now: u64, epoch: u64) -> (r:
        Finish)
        requires
            old(self).well_formed(),
            k < old(self).downloads@.len(),
        ensures
            final(self).well_formed(),
            *final(self) == (AppState {
                downloads: final(self).downloads,
                log: final(self).log,
                ..*old(self)
            }),
            others_kept(*old(self), *final(self), k as int),
            ({
                let d = old(self).downloads@[k as int];
                let e = final(self).downloads@[k as int];
                &&& e == (Download { status: e.status, ..d })
                &&& ended_as(d, outcome, e.status)
                &&& logged(old(self).log, final(self).log, ended_line(d, outcome))
                &&& r.save == (has_file(d) && outcome is Err && (d.pause || !d.cancel))
                &&& r.erase == (has_file(d) && outcome is Err && !d.pause && d.cancel)
                &&& r.notice is Some <==> old(self).config.config().notify_on_complete && (
                e.status is Done || e.status is Failed && d.fatal)
                &&& r.notice matches Some(n) ==> {
                    &&& n.0@ == if outcome is Ok {
                        "Download completato"@
                    } else {
                        "Download fallito"@
                    }
                    &&& n.1@ == if outcome is Ok || d.fatal_msg@.len() == 0 {
                        d.name@
                    } else {
                        d.name@ + "\n"@ + d.fatal_msg@
                    }
                }
                &&& r.entry is Some <==> !(e.status is Paused)
                &&& r.entry matches Some(h) ==> {
                    &&& h.name == d.name
                    &&& h.url == d.job.url
                    &&& h.path == d.path
                    &&& h.bytes == d.done
                    &&& h.secs == num::max_of(now - d.started, 0) / 1_000_000_000
                    &&& h.at == epoch
                    &&& h.ok == outcome is Ok
                }
            }),
    {
        let has_file = !self.downloads[k].path.is_empty();
        let pause = self.downloads[k].pause;
        let cancel = self.downloads[k].cancel;
        let fatal = self.downloads[k].fatal;
        let name = self.downloads[k].name.clone();
        let ok = outcome.is_ok();
        let mut detail: String = String::new();
        let mut told: bool = false;
        let line = match outcome {
            Ok(shown) => {
                self.downloads[k].status = Status::Done;
                told = true;
                text::join("completato: ", shown.as_str())
            },
            Err(why) => if pause {
                self.downloads[k].status = Status::Paused;
                text::join("in pausa: ", name.as_str())
            } else if cancel {
                self.downloads[k].status = Status::Cancelled;
                text::join("annullato: ", name.as_str())
            } else {
                let msg = if fatal { self.downloads[k].fatal_msg.clone() } else { why };
                let mut l: String = text::join("ERRORE: ", msg.as_str());
                l.append(" — url: ");
                l.append(self.downloads[k].job.url.as_str());
                if fatal {
                    told = true;
                    detail = msg.clone();
                }
                self.downloads[k].status = Status::Failed(msg);
                l
            },
        };
        let notice = if told && self.config.get().notify_on_complete {
            Some(notify::finished(name.as_str(), ok, detail.as_str()))
        } else {
            None
        };
        let d = &self.downloads[k];
        let entry = if !ok && pause {
            None
        } else {
            Some(
                Entry {
                    name,
                    url: d.job.url.clone(),
                    path: d.path.clone(),
                    bytes: d.done,
                    secs: now.saturating_sub(d.started) / 1_000_000_000,
                    at: epoch,
                    ok,
                },
            )
        };
        self.log(line.as_str());
        Finish {
            save: has_file && !ok && (pause || !cancel),
            erase: has_file && !ok && !pause && cancel,
            notice,
            entry,
        }
    }

    /// Throws away a download that is not at work: it counts as cancelled, and
    /// the two files returned, its part file and what is kept beside it, are
    /// to be deleted.
    pub fn discard(&mut self, k: usize) -> (r: (FilePath, FilePath))
        requires
            old(self).well_formed(),
            k < old(self).downloads@.len(),
        ensures
            final(self).well_formed(),
            *final(self) == (AppState { downloads: final(self).downloads, ..*old(self) }),
            others_kept(*old(self), *final(self), k as int),
            final(self).downloads@[k as int] == (Download {
                status: Status::Cancelled,
                ..old(self).downloads@[k as int]
            }),
            r.0@ == names::part_of(old(self).downloads@[k as int].path@),
            r.1@ == names::sidecar_of(r.0@),
    {
        let part = names::part_path(&self.downloads[k].path);
        let sc = names::sidecar_path(&part);
        self.downloads[k].status = Status::Cancelled;
        (part, sc)
    }
}

/// How many connections to begin with for a host: what it put up with last
/// time, and never more than the settings allow.
pub open spec fn first_conc(c: ConfigView, host: Seq<char>) -> int {
    num::min_of(
        if c.host_conc.contains_key(host) {
            c.host_conc[host] as int
        } else {
            c.max_connections as int
        },
        c.max_connections as int,
    )
}

/// The settings after a download from `host` ended with `conc` connections:
/// fewer than the most are remembered, and a host that bears the most again is
/// forgotten.
pub open spec fn remembering(c: ConfigView, host: Seq<char>, conc: u64) -> ConfigView {
    ConfigView {
        host_conc: if conc < c.max_connections {
            c.host_conc.insert(host, conc)
        } else {
            c.host_conc.remove(host)
        },
        ..c
    }
}

impl AppState {
    /// How many connections to begin with for a link: a host that refused many
    /// is not pestered with as many again after every start.
    pub fn remembered_conc(&self, link: &str) -> (r: u64)
        requires
            self.well_formed(),
        ensures
            r == first_conc(self.config.config(), url::host(link@)),
    {
        let cfg = self.config.get();
        let n: u64 = match cfg.host_conc.get(url::host_of(link).as_str()) {
            Some(n) => n,
            None => cfg.max_connections,
        };
        num::smaller(n, cfg.max_connections)
    }

    /// Remembers how many connections the host of a link put up with.
    pub fn remember_conc(&mut self, link: &str, conc: u64, now: u64)
        requires
            old(self).well_formed(),
        ensures
            final(self).well_formed(),
            *final(self) == (AppState { config: final(self).config, ..*old(self) }),
            final(self).config.config() == remembering(
                old(self).config.config(),
                url::host(link@),
                conc,
            ),
            final(self).config.edited_at() == Some(now),
            final(self).config.is_saving() == old(self).config.is_saving(),
    {
        let host = url::host_of(link);
        let ghost before = self.config.config();
        proof {
            self.config.lemma_in_range();
        }
        let f = |c: &mut Config|
            requires
                c.well_formed(),
            ensures
                final(c).well_formed(),
                final(c)@ == remembering(old(c)@, host@, conc),
            {
                if conc < c.max_connections {
                    c.host_conc.insert(host, conc);
                } else {
                    c.host_conc.remove(host.as_str());
                }
            };
        self.config.edit(f, now);
        proof {
            config::clamping_settles(remembering(before, url::host(link@), conc));
        }
    }
}

/// How many downloads are at work.
pub open spec fn busy_count(ds: Seq<Download>) -> int
    decreases ds.len(),
{
    if ds.len() == 0 {
        0
    } else {
        busy_count(ds.drop_last()) + if ds.last().status.busy() { 1int } else { 0 }
    }
}

/// The numbers of the downloads that can be resumed, in order.
pub open spec fn resumable_ids(ds: Seq<Download>) -> Seq<u64>
    decreases ds.len(),
{
    if ds.len() == 0 {
        Seq::empty()
    } else if ds.last().status.resumable() {
        resumable_ids(ds.drop_last()).push(ds.last().id)
    } else {
        resumable_ids(ds.drop_last())
    }
}

/// The downloads whose numbers are not among `ids`, in order.
pub open spec fn without_ids(ds: Seq<Download>, ids: Seq<u64>) -> Seq<Download>
    decreases ds.len(),
{
    if ds.len() == 0 {
        Seq::empty()
    } else if ids.contains(ds.last().id) {
        without_ids(ds.drop_last(), ids)
    } else {
        without_ids(ds.drop_last(), ids).push(ds.last())
    }
}

/// The bytes received by all downloads together.
pub open spec fn received(ds: Seq<Download>) -> int
    decreases ds.len(),
{
    if ds.len() == 0 {
        0
    } else {
        received(ds.drop_last()) + ds.last().done
    }
}

/// Every download told to pause, or only those at work.
pub open spec fn paused(ds: Seq<Download>, only_busy: bool) -> Seq<Download> {
    ds.map_values(
        |d: Download|
            if !only_busy || d.status.busy() {
                Download { pause: true, ..d }
            } else {
                d
            },
    )
}

proof fn lemma_received_grows(ds: Seq<Download>, i: int)
    requires
        0 <= i <= ds.len(),
    ensures
        0 <= received(ds.take(i)) <= received(ds),
    decreases ds.len() - i,
{
    if i < ds.len() {
        lemma_received_grows(ds, i + 1);
        assert(ds.take(i + 1).drop_last() =~= ds.take(i));
    } else {
        assert(ds.take(i) =~= ds);
    }
    lemma_received_positive(ds.take(i));
}

proof fn lemma_received_positive(ds: Seq<Download>)
    ensures
        received(ds) >= 0,
    decreases ds.len(),
{
    if ds.len() > 0 {
        lemma_received_positive(ds.drop_last());
    }
}

/// What is left after some were taken out of a list of downloads.
proof fn lemma_without_ids(ds: Seq<Download>, ids: Seq<u64>)
    ensures
        forall|i: int|
            0 <= i < without_ids(ds, ids).len() ==> ds.contains(#[trigger] without_ids(ds, ids)[i]),
        forall|i: int, j: int|
            0 <= i < j < without_ids(ds, ids).len() ==> exists|a: int, b: int|
                0 <= a < b < ds.len() && ds[a] == #[trigger] without_ids(ds, ids)[i] && ds[b]
                    == #[trigger] without_ids(ds, ids)[j],
    decreases ds.len(),
{
    if ds.len() > 0 {
        let init = ds.drop_last();
        lemma_without_ids(init, ids);
        let w = without_ids(ds, ids);
        let v = without_ids(init, ids);
        assert forall|i: int| 0 <= i < w.len() implies ds.contains(#[trigger] w[i]) by {
            if i < v.len() {
                assert(init.contains(v[i]));
                let a = choose|a: int| 0 <= a < init.len() && init[a] == v[i];
                assert(ds[a] == w[i]);
            } else {
                assert(ds[ds.len() - 1] == w[i]);
            }
        }
        assert forall|i: int, j: int| 0 <= i < j < w.len() implies exists|a: int, b: int|
            0 <= a < b < ds.len() && ds[a] == #[trigger] w[i] && ds[b] == #[trigger] w[j] by {
            if j < v.len() {
                let (a, b) = choose|a: int, b: int|
                    0 <= a < b < init.len() && init[a] == v[i] && init[b] == v[j];
                assert(ds[a] == w[i] && ds[b] == w[j]);
            } else {
                assert(init.contains(v[i]));
                let a = choose|a: int| 0 <= a < init.len() && init[a] == v[i];
                assert(ds[a] == w[i] && ds[ds.len() - 1] == w[j]);
            }
        }
    }
}

fn holds(ids: &Vec<u64>, id: u64) -> (r: bool)
    ensures
        r == ids@.contains(id),
{
    let mut i: usize = 0;
    while i < ids.len()
        invariant
            i <= ids@.len(),
            forall|j: int| 0 <= j < i ==> ids@[j] != id,
        decreases ids@.len() - i,
    {
        if ids[i] == id {
            return true;
        }
        i = i + 1;
    }
    false
}

impl AppState {
    /// How many downloads are at work.
    pub fn busy(&self) -> (r: usize)
        ensures
            r == busy_count(self.downloads@),
    {
        let mut n: usize = 0;
        let mut i: usize = 0;
        assert(self.downloads@.take(0) =~= Seq::empty());
        while i < self.downloads.len()
            invariant
                i <= self.downloads@.len(),
                n <= i,
                n == busy_count(self.downloads@.take(i as int)),
            decreases self.downloads@.len() - i,
        {
            assert(self.downloads@.take(i + 1).drop_last() =~= self.downloads@.take(i as int));
            if self.downloads[i].status.is_busy() {
                n = n + 1;
            }
            i = i + 1;
        }
        assert(self.downloads@.take(i as int) =~= self.downloads@);
        n
    }

    /// The numbers of the downloads that can be resumed.
    pub fn resumable(&self) -> (r: Vec<u64>)
        ensures
            r@ == resumable_ids(self.downloads@),
    {
        let mut r: Vec<u64> = Vec::new();
        let mut i: usize = 0;
        assert(self.downloads@.take(0) =~= Seq::empty());
        while i < self.downloads.len()
            invariant
                i <= self.downloads@.len(),
                r@ == resumable_ids(self.downloads@.take(i as int)),
            decreases self.downloads@.len() - i,
        {
            assert(self.downloads@.take(i + 1).drop_last() =~= self.downloads@.take(i as int));
            if self.downloads[i].status.is_resumable() {
                r.push(self.downloads[i].id);
            }
            i = i + 1;
        }
        assert(self.downloads@.take(i as int) =~= self.downloads@);
        r
    }

    /// Takes downloads off the list.
    pub fn remove(&mut self, ids: &Vec<u64>)
        requires
            old(self).well_formed(),
        ensures
            final(self).well_formed(),
            *final(self) == (AppState { downloads: final(self).downloads, ..*old(self) }),
            final(self).downloads@ == without_ids(old(self).downloads@, ids@),
    {
        let ghost before = self.downloads@;
        let mut i: usize = 0;
        let ghost mut seen: int = 0;
        assert(before.take(0) =~= Seq::empty());
        while i < self.downloads.len()
            invariant
                *self == (AppState { downloads: self.downloads, ..*old(self) }),
                0 <= seen <= before.len(),
                i <= self.downloads@.len(),
                self.downloads@.len() - i == before.len() - seen,
                i == without_ids(before.take(seen), ids@).len(),
                self.downloads@ =~= without_ids(before.take(seen), ids@) + before.skip(seen),
            decreases self.downloads@.len() - i,
        {
            let ghost w = without_ids(before.take(seen), ids@);
            assert(before.take(seen + 1).drop_last() =~= before.take(seen));
            assert(self.downloads@[i as int] == before[seen]);
            if holds(ids, self.downloads[i].id) {
                let ghost full = self.downloads@;
                let _ = self.downloads.remove(i);
                assert(self.downloads@ =~= full.remove(i as int));
                assert(self.downloads@ =~= w + before.skip(seen + 1));
            } else {
                assert(self.downloads@ =~= w.push(before[seen]) + before.skip(seen + 1));
                i = i + 1;
            }
            proof {
                seen = seen + 1;
            }
        }
        proof {
            assert(before.take(seen) =~= before);
            assert(self.downloads@ =~= without_ids(before, ids@));
            lemma_without_ids(before, ids@);
            assert forall|a: int| 0 <= a < self.downloads@.len() implies (
            #[trigger] self.downloads@[a]).id < self.next_id by {
                assert(before.contains(self.downloads@[a]));
            }
            assert forall|a: int, b: int| 0 <= a < b < self.downloads@.len() implies (
            #[trigger] self.downloads@[a]).id != (#[trigger] self.downloads@[b]).id by {
                let (x, y) = choose|x: int, y: int|
                    0 <= x < y < before.len() && before[x] == self.downloads@[a] && before[y]
                        == self.downloads@[b];
                assert(before[x].id != before[y].id);
            }
        }
    }

    /// Tells every download to pause, or only those at work.
    pub fn pause_all(&mut self, only_busy: bool)
        requires
            old(self).well_formed(),
        ensures
            final(self).well_formed(),
            *final(self) == (AppState { downloads: final(self).downloads, ..*old(self) }),
            final(self).downloads@ == paused(old(self).downloads@, only_busy),
    {
        let ghost before = self.downloads@;
        let mut i: usize = 0;
        while i < self.downloads.len()
            invariant
                *self == (AppState { downloads: self.downloads, ..*old(self) }),
                before == old(self).downloads@,
                self.downloads@.len() == before.len(),
                i <= before.len(),
                self.downloads@ =~= paused(before, only_busy).take(i as int) + before.skip(
                    i as int,
                ),
            decreases before.len() - i,
        {
            assert(self.downloads@[i as int] == before[i as int]);
            let ghost mid = self.downloads@;
            if !only_busy || self.downloads[i].status.is_busy() {
                self.downloads[i].pause = true;
            }
            assert(self.downloads@[i as int] == paused(before, only_busy)[i as int]);
            i = i + 1;
        }
        assert(self.downloads@ =~= paused(before, only_busy));
        assert forall|a: int| 0 <= a < self.downloads@.len() implies (
        #[trigger] self.downloads@[a]).id < self.next_id by {
            assert(before[a].id < self.next_id);
        }
        assert forall|a: int, b: int| 0 <= a < b < self.downloads@.len() implies (
        #[trigger] self.downloads@[a]).id != (#[trigger] self.downloads@[b]).id by {
            assert(before[a].id != before[b].id);
        }
    }

    /// The bytes received by all downloads together.
    pub fn session_total(&self) -> (r: u64)
        requires
            received(self.downloads@) <= u64::MAX,
        ensures
            r == received(self.downloads@),
    {
        let mut n: u64 = 0;
        let mut i: usize = 0;
        assert(self.downloads@.take(0) =~= Seq::empty());
        while i < self.downloads.len()
            invariant
                received(self.downloads@) <= u64::MAX,
                i <= self.downloads@.len(),
                n == received(self.downloads@.take(i as int)),
            decreases self.downloads@.len() - i,
        {
            assert(self.downloads@.take(i + 1).drop_last() =~= self.downloads@.take(i as int));
            proof {
                lemma_received_grows(self.downloads@, i + 1);
            }
            n = n + self.downloads[i].done;
            i = i + 1;
        }
        assert(self.downloads@.take(i as int) =~= self.downloads@);
        n
    }

    /// Notes a newer release, unless it is the one already known.
    pub fn note_update(&mut self, info: UpdateInfo) -> (r: bool)
        requires
            old(self).well_formed(),
        ensures
            final(self).well_formed(),
            r == !(old(self).update matches Some(u) && u.version@ == info.version@),
            if r {
                &&& *final(self) == (AppState {
                    update: Some(info),
                    log: final(self).log,
                    ..*old(self)
                })
                &&& logged(
                    old(self).log,
                    final(self).log,
                    "aggiornamento disponibile: "@ + info.version@ + " (sei su v"@
                        + update::VERSION@ + ")"@,
                )
            } else {
                *final(self) == *old(self)
            },
    {
        let known = match &self.update {
            Some(u) => text::same(u.version.as_str(), info.version.as_str()),
            None => false,
        };
        if known {
            return false;
        }
        let mut line: String = text::join("aggiornamento disponibile: ", info.version.as_str());
        line.append(" (sei su v");
        line.append(update::VERSION);
        line.append(")");
        self.update = Some(info);
        self.log(line.as_str());
        true
    }

    /// Begins to install an update; not if one is being installed.
    pub fn begin_update(&mut self) -> (r: bool)
        requires
            old(self).well_formed(),
        ensures
            final(self).well_formed(),
            r == !old(self).updating,
            *final(self) == (AppState { updating: true, ..*old(self) }),
    {
        let r = !self.updating;
        self.updating = true;
        r
    }

    /// An update could not be installed.
    pub fn fail_update(&mut self, why: &str)
        requires
            old(self).well_formed(),
        ensures
            final(self).well_formed(),
            *final(self) == (AppState { updating: false, log: final(self).log, ..*old(self) }),
            logged(old(self).log, final(self).log, "ERRORE aggiornamento: "@ + why@),
    {
        self.updating = false;
        self.log(text::join("ERRORE aggiornamento: ", why).as_str());
    }
}

/// The path that a complete file is given: the first of the names tried for
/// its own of which there is no file, or its own if there is a file of every
/// one of them.
pub open spec fn name_settled<E: Fn(&FilePath) -> bool>(
    is_there: E,
    before: names::PathView,
    after: names::PathView,
) -> bool {
    ||| exists|k: nat|
        {
            &&& after == #[trigger] names::candidate(before, k)
            &&& names::said(is_there, after, false)
            &&& forall|i: nat|
                i < k ==> names::said(is_there, #[trigger] names::candidate(before, i), true)
        }
    ||| after == before && forall|i: nat|
        i <= u32::MAX ==> names::said(is_there, #[trigger] names::candidate(before, i), true)
}

/// Gives a complete file the first free name if a file of its name has
/// appeared meanwhile: to rename onto it would destroy it. Says whether it
/// did.
pub fn settle_name<E: Fn(&FilePath) -> bool>(dl: &mut Download, is_there: E) -> (r: bool)
    requires
        forall|p: FilePath| call_requires(is_there, (&p,)),
    ensures
        call_ensures(is_there, (&old(dl).path,), r),
        name_settled(is_there, old(dl).path@, final(dl).path@),
        if r {
            &&& *final(dl) == (Download {
                path: final(dl).path,
                name: final(dl).name,
                ..*old(dl)
            })
            &&& final(dl).name@ == final(dl).path@.shown()
        } else {
            *final(dl) == *old(dl)
        },
{
    if !is_there(&dl.path) {
        assert(names::candidate(dl.path@, 0) == dl.path@);
        assert(names::said(is_there, dl.path@, false));
        return false;
    }
    let path = names::free_name(&dl.path, is_there);
    dl.name = path.shown_name();
    dl.path = path;
    true
}

/// What is to be done with the files of a complete download.
#[derive(Debug)]
pub struct Settled {
    /// The part file, which is to be renamed.
    pub from: FilePath,
    /// The complete file.
    pub to: FilePath,
    /// What was kept beside the part file, which is to be deleted then.
    pub stale: FilePath,
}

/// Ends the fetching of a complete file: settles its name, and says what is to
/// be done with its files.
pub fn finalize<E: Fn(&FilePath) -> bool>(dl: &mut Download, is_there: E) -> (r: Settled)
    requires
        forall|p: FilePath| call_requires(is_there, (&p,)),
    ensures
        r.from@ == names::part_of(old(dl).path@),
        r.to == final(dl).path,
        r.stale@ == names::sidecar_of(r.from@),
        name_settled(is_there, old(dl).path@, final(dl).path@),
        *final(dl) == (Download { path: final(dl).path, name: final(dl).name, ..*old(dl) }),
        ({
            ||| call_ensures(is_there, (&old(dl).path,), false) && *final(dl) == *old(dl)
            ||| {
                &&& call_ensures(is_there, (&old(dl).path,), true)
                &&& final(dl).name@ == final(dl).path@.shown()
            }
        }),
{
    let from = names::part_path(&dl.path);
    let stale = names::sidecar_path(&from);
    let _ = settle_name(dl, is_there);
    Settled { from, to: dl.path.clone(), stale }
}

/// The files on disk after the part file of a complete download took its place
/// and what was kept beside it was deleted.
pub open spec fn moved(
    disk: Map<names::PathView, Seq<u8>>,
    path: names::PathView,
    to: names::PathView,
) -> Map<names::PathView, Seq<u8>> {
    let part = names::part_of(path);
    disk.remove(part).insert(to, disk[part]).remove(names::sidecar_of(part))
}

/// Where the first `n` names tried are all taken there are at least `n` files.
proof fn lemma_candidates_count(files: Set<names::PathView>, path: names::PathView, n: nat)
    requires
        files.finite(),
        forall|i: nat| i < n ==> files.contains(#[trigger] names::candidate(path, i)),
    ensures
        files.len() >= n,
    decreases n,
{
    if n > 0 {
        let last = (n - 1) as nat;
        let c = names::candidate(path, last);
        let rest = files.remove(c);
        assert forall|i: nat| i < last implies rest.contains(#[trigger] names::candidate(path, i)) by {
            assert(files.contains(names::candidate(path, i)));
            names::candidates_are_all_different(path.name, i, last);
        }
        lemma_candidates_count(rest, path, last);
        assert(files.contains(c));
    }
}

/// A complete download leaves its file and nothing else: the file is what the
/// part file was, neither that nor what was kept beside it is left, and no
/// other file is touched. So it is on every disk with fewer files than there
/// are names to try.
pub proof fn complete_files_take_their_place<E: Fn(&FilePath) -> bool>(
    disk: Map<names::PathView, Seq<u8>>,
    is_there: E,
    path: names::PathView,
    to: names::PathView,
)
    requires
        path.well_formed(),
        name_settled(is_there, path, to),
        forall|p: FilePath, yes: bool| #[trigger]
            call_ensures(is_there, (&p,), yes) ==> yes == disk.contains_key(p@),
        disk.dom().finite(),
        disk.dom().len() <= u32::MAX,
        disk.contains_key(names::part_of(path)),
    ensures
        moved(disk, path, to).contains_key(to),
        moved(disk, path, to)[to] == disk[names::part_of(path)],
        !disk.contains_key(to),
        !moved(disk, path, to).contains_key(names::part_of(path)),
        !moved(disk, path, to).contains_key(names::sidecar_of(names::part_of(path))),
        forall|p: names::PathView|
            p != to && p != names::part_of(path) && p != names::sidecar_of(names::part_of(path))
                ==> moved(disk, path, to).contains_key(p) == disk.contains_key(p) && (
            disk.contains_key(p) ==> #[trigger] moved(disk, path, to)[p] == disk[p]),
{
    if forall|i: nat|
        i <= u32::MAX ==> names::said(is_there, #[trigger] names::candidate(path, i), true) {
        let n = u32::MAX as nat + 1;
        assert forall|i: nat| i < n implies disk.dom().contains(
            #[trigger] names::candidate(path, i),
        ) by {
            assert(names::said(is_there, names::candidate(path, i), true));
        }
        lemma_candidates_count(disk.dom(), path, n);
        assert(false);
    }
    if exists|k: nat|
        {
            &&& to == #[trigger] names::candidate(path, k)
            &&& names::said(is_there, to, false)
            &&& forall|i: nat|
                i < k ==> names::said(is_there, #[trigger] names::candidate(path, i), true)
        } {
        let k = choose|k: nat|
            {
                &&& to == #[trigger] names::candidate(path, k)
                &&& names::said(is_there, to, false)
                &&& forall|i: nat|
                    i < k ==> names::said(is_there, #[trigger] names::candidate(path, i), true)
            };
        names::candidates_are_apart_from_the_part(path, k);
        assert(!disk.contains_key(to));
    }
}

/// A download that is resumed comes to the same end as if it had never stopped.
/// It was stopped in `run`, and is `d` when it goes on from where it was, with
/// the ranges that it had or that came back from the disk. If none of its
/// connections ends with an error, its file is the remote file, neither the
/// part file nor what was kept beside it is left, and it is done.
pub proof fn resumed_downloads_come_to_the_same_end<E: Fn(&FilePath) -> bool>(
    run: transfer::Run,
    d: Download,
    resumed: Download,
    file: Seq<u8>,
    n: nat,
    ops: Seq<transfer::CrewOp>,
    outcomes: Seq<Option<String>>,
    disk: Map<names::PathView, Seq<u8>>,
    is_there: E,
    to: names::PathView,
    shown: String,
    status: Status,
    remote: Seq<u8>,
)
    requires
        run.sound(remote),
        transfer::resumes(run, d.segs@),
        resumed.segs@ == segment::rewound(d.segs@),
        transfer::gains(run.file, file, remote),
        n > 0,
        ({
            let crew = transfer::Crew::starting(
                transfer::Run::starting(resumed.segs@, file),
                n,
            );
            &&& crew.allows_all(ops, remote)
            &&& crew.after_all(ops, remote).ended(outcomes)
            &&& disk.contains_key(names::part_of(d.path@))
            &&& disk[names::part_of(d.path@)] == crew.after_all(ops, remote).run.file
        }),
        transfer::first_some(outcomes) is None,
        name_settled(is_there, d.path@, to),
        forall|p: FilePath, yes: bool| #[trigger]
            call_ensures(is_there, (&p,), yes) ==> yes == disk.contains_key(p@),
        d.path@.well_formed(),
        disk.dom().finite(),
        disk.dom().len() <= u32::MAX,
        ended_as(resumed, Ok(shown), status),
    ensures
        moved(disk, d.path@, to).contains_key(to),
        moved(disk, d.path@, to)[to] == remote,
        !moved(disk, d.path@, to).contains_key(names::part_of(d.path@)),
        !moved(disk, d.path@, to).contains_key(names::sidecar_of(names::part_of(d.path@))),
        status is Done,
{
    transfer::a_resumed_download_ends_as_the_same_file(
        run,
        d.segs@,
        file,
        n,
        ops,
        outcomes,
        remote,
    );
    complete_files_take_their_place(disk, is_there, d.path@, to);
}

/// How this program calls itself to a server when a job does not say.
pub open spec fn default_agent() -> Seq<char> {
    "mdm/"@ + update::VERSION@
}

/// What to call oneself to the server: what the job says, the browser's own
/// name, or this program's.
pub fn user_agent(job: &Job) -> (r: String)
    ensures
        r@ == if job.user_agent@.len() == 0 { default_agent() } else { job.user_agent@ },
{
    if job.user_agent.as_str().unicode_len() == 0 {
        text::join("mdm/", update::VERSION)
    } else {
        job.user_agent.clone()
    }
}

/// The headers that go with every request of a job.
#[derive(Debug)]
pub struct RequestHeaders {
    pub cookie: Option<String>,
    pub referer: Option<String>,
}

/// The value of a header, if it is not empty and can be one.
pub open spec fn header_of(s: Seq<char>) -> Option<Seq<char>> {
    if s.len() > 0 && transfer::is_header(s) { Some(s) } else { None }
}

fn header_value(s: &String) -> (r: Option<String>)
    ensures
        probe::opt_view(r) == header_of(s@),
{
    if s.as_str().unicode_len() > 0 && crate::foreign::is_header_value(s.as_str()) {
        Some(s.clone())
    } else {
        None
    }
}

/// The headers that go with every request of a job: its cookies and where it
/// was found, as far as there are any and they can be sent.
pub fn request_headers(job: &Job) -> (r: RequestHeaders)
    ensures
        probe::opt_view(r.cookie) == header_of(job.cookies@),
        probe::opt_view(r.referer) == header_of(job.referrer@),
{
    RequestHeaders { cookie: header_value(&job.cookies), referer: header_value(&job.referrer) }
}

/// Where the log is kept.
pub fn log_path(data_dir: &str) -> (r: FilePath)
    ensures
        r@ == names::at(data_dir@, "mdm.log"@),
{
    FilePath::new(data_dir, "mdm.log")
}

/// Where the log file is put when it has become too large.
pub fn old_log_path(data_dir: &str) -> (r: FilePath)
    ensures
        r@ == names::at(data_dir@, "mdm.log.1"@),
{
    FilePath::new(data_dir, "mdm.log.1")
}

/// Whether a log file with so many bytes is to be put aside.
pub fn log_is_full(written: u64) -> (r: bool)
    ensures
        r == (written > LOG_MAX_BYTES),
{
    written > LOG_MAX_BYTES
}

/// Retries are bounded: a download is retried by itself at most as often as
/// the settings say, never after a final error, and never after a
/// cancellation.
pub proof fn retries_are_bounded(s: AppState, k: int)
    requires
        s.well_formed(),
        s.retries_again(k),
    ensures
        s.downloads@[k].retries + 1 <= s.config.config().auto_retry <= 10,
        !s.downloads@[k].fatal,
        !s.downloads@[k].cancel,
        5 <= backoff(s.downloads@[k].retries as int) <= 45,
{
    s.config.lemma_in_range();
}

/// A final error is the end: a download that failed with one is not retried,
/// and every connection of it stops.
pub proof fn final_errors_are_not_retried(s: AppState, k: int)
    requires
        s.downloads@[k].fatal,
    ensures
        !s.retries_again(k),
        s.downloads@[k].stopped(),
{
}

/// What a host put up with is what it is asked for next time, up to the most
/// that the settings allow, and other hosts are asked for as much as before.
pub proof fn hosts_are_remembered(c: ConfigView, host: Seq<char>, other: Seq<char>, conc: u64)
    ensures
        first_conc(remembering(c, host, conc), host) == num::min_of(
            conc as int,
            c.max_connections as int,
        ),
        other != host ==> first_conc(remembering(c, host, conc), other) == first_conc(c, other),
{
}

/// What users are promised in numbers: sixteen connections at most, ten
/// retries at most, two hundred lines of log in memory and two megabytes on
/// disk.
pub proof fn the_program_has_its_limits()
    ensures
        MAX_CONNECTIONS == 16,
        MAX_RETRIES == 10,
        LOG_LINES == 200,
        LOG_MAX_BYTES == 2 * 1024 * 1024,
{
}

/// A new line stands last in the log, marked as one; until there are two
/// hundred lines none is lost, and from then on only the oldest.
pub proof fn the_log_loses_its_oldest_line(log: Seq<Seq<char>>, line: Seq<char>)
    requires
        log.len() <= 200,
    ensures
        log.len() < 200 ==> appended(log, line) == log.push("> "@ + line),
        log.len() == 200 ==> appended(log, line) == log.skip(1).push("> "@ + line),
        appended(log, line).last() == "> "@ + line,
        appended(log, line).len() <= 200,
{
    let all = log.push("> "@ + line);
    assert(all.skip(0) =~= all);
    assert(log.len() == 200 ==> all.skip(1) =~= log.skip(1).push("> "@ + line));
}

/// A link is taken for one under way exactly if a listed download of it waits,
/// connects, runs or is paused: a job for it is then ignored. A download that
/// is done, failed or was cancelled stands in nobody's way.
pub proof fn links_under_way_are_known(s: AppState, url: Seq<char>, i: int)
    requires
        0 <= i < s.downloads@.len(),
        s.downloads@[i].job.url@ == url,
    ensures
        s.downloads@[i].status is Queued ==> s.has_live(url),
        s.downloads@[i].status is Connecting ==> s.has_live(url),
        s.downloads@[i].status is Active ==> s.has_live(url),
        s.downloads@[i].status is Paused ==> s.has_live(url),
        (forall|j: int|
            0 <= j < s.downloads@.len() && (#[trigger] s.downloads@[j]).job.url@ == url
                ==> s.downloads@[j].status is Done || s.downloads@[j].status is Failed
                || s.downloads@[j].status is Cancelled) ==> !s.has_live(url),
{
}

/// A link that no listed download has is not under way.
pub proof fn unknown_links_are_not_under_way(s: AppState, url: Seq<char>)
    requires
        forall|j: int|
            0 <= j < s.downloads@.len() ==> (#[trigger] s.downloads@[j]).job.url@ != url,
    ensures
        !s.has_live(url),
{
}

/// Jobs taken in one after the other never leave two downloads of one link
/// that wait, connect, run or are paused, whatever became of those before.
pub proof fn no_link_is_under_way_twice(s: AppState, d: Download, i: int, j: int)
    requires
        no_live_twins(s.downloads@),
        !s.has_live(d.job.url@),
        0 <= i < j < s.downloads@.len() + 1,
    ensures
        ({
            let after = s.downloads@.push(d);
            let a = after[i].status;
            let b = after[j].status;
            (a is Queued || a is Connecting || a is Active || a is Paused) && (b is Queued
                || b is Connecting || b is Active || b is Paused) ==> after[i].job.url@
                != after[j].job.url@
        }),
        no_live_twins(s.downloads@.push(d)),
{
    jobs_never_make_twins(s.downloads@, d);
    let after = s.downloads@.push(d);
    assert(after[i].status.live() && after[j].status.live() ==> after[i].job.url@
        != after[j].job.url@);
}

/// A new download has received nothing, is not told to stop, has no file yet,
/// and is called what the job asks for, or by its link.
pub proof fn new_downloads_start_from_nothing(d: Download, id: u64, job: Job, conc: u64, now: u64)
    requires
        is_new(d, id, job, conc, now),
    ensures
        d.id == id && d.job == job && d.conc == conc && d.started == now,
        !d.cancel && !d.pause && !d.fatal,
        d.done == 0 && d.total == 0 && d.retries == 0 && d.segs@.len() == 0,
        d.status is Connecting,
        d.validator is None && !d.resumable,
        d.fatal_msg@.len() == 0 && d.queue_pos == 0,
        job.filename@.len() > 0 ==> d.name@ == job.filename@,
        job.filename@.len() == 0 ==> d.name@ == job.url@,
        !has_file(d),
{
}

/// A download has a file as soon as its path says anything at all.
pub proof fn paths_that_say_something_are_files(d: Download)
    ensures
        d.path@.dir.len() > 0 || d.path@.name.len() > 0 || d.path@.tail.len() > 0 ==> has_file(d),
        d.path@.dir.len() == 0 && d.path@.name.len() == 0 && d.path@.tail.len() == 0 ==> !has_file(
            d,
        ),
{
}

/// The first retry by itself follows after five seconds, each of the next two
/// after three times as long, and all later ones after as long as the third.
pub proof fn retries_wait_longer_and_longer(n: int)
    requires
        n >= 0,
    ensures
        backoff(0) == 5,
        n < 2 ==> backoff(n + 1) == 3 * backoff(n),
        n >= 2 ==> backoff(n + 1) == backoff(n),
{
}

/// A download that failed is retried as long as it has retries left, unless it
/// was cancelled or the error was final; no other is.
pub proof fn failed_downloads_are_retried(s: AppState, k: int)
    ensures
        ({
            let d = s.downloads@[k];
            &&& d.status is Failed && d.retries < s.config.config().auto_retry && !d.fatal
                && !d.cancel ==> s.retries_again(k)
            &&& !(d.status is Failed) ==> !s.retries_again(k)
            &&& d.retries >= s.config.config().auto_retry ==> !s.retries_again(k)
            &&& d.fatal || d.cancel ==> !s.retries_again(k)
        }),
{
}

/// What is done to one download leaves every other as it was.
pub proof fn other_downloads_are_left_alone(before: AppState, after: AppState, k: int, j: int)
    requires
        others_kept(before, after, k),
        0 <= k < before.downloads@.len(),
        0 <= j < before.downloads@.len(),
        j != k,
    ensures
        after.downloads@.len() == before.downloads@.len(),
        after.downloads@[j] == before.downloads@[j],
{
}

/// A complete file is done whatever else was asked for. An error is a pause
/// where one was asked for, else a cancellation where that was asked for, and
/// else a failure, for the final reason if there is one. The log says which.
pub proof fn every_end_has_its_name(d: Download, outcome: Result<String, String>, s: Status)
    requires
        ended_as(d, outcome, s),
    ensures
        outcome is Ok <==> s is Done,
        outcome is Err && d.pause <==> s is Paused,
        outcome is Err && !d.pause && d.cancel <==> s is Cancelled,
        outcome is Err && !d.pause && !d.cancel <==> s is Failed,
        s matches Status::Failed(m) ==> (d.fatal ==> m@ == d.fatal_msg@) && (!d.fatal ==> m@
            == outcome->Err_0@),
        outcome matches Ok(shown) ==> ended_line(d, outcome) == "completato: "@ + shown@,
        s is Paused ==> ended_line(d, outcome) == "in pausa: "@ + d.name@,
        s is Cancelled ==> ended_line(d, outcome) == "annullato: "@ + d.name@,
        s matches Status::Failed(m) ==> ended_line(d, outcome) == "ERRORE: "@ + m@ + " — url: "@
            + d.job.url@,
{
}

/// A host that nothing is known of is asked for as many connections as the
/// settings allow, and none for more. What is remembered of hosts changes no
/// other setting, and a host that bears the most is forgotten.
pub proof fn unknown_hosts_get_the_most(c: ConfigView, host: Seq<char>, conc: u64)
    ensures
        !c.host_conc.contains_key(host) ==> first_conc(c, host) == c.max_connections,
        c.host_conc.contains_key(host) && c.host_conc[host] <= c.max_connections ==> first_conc(
            c,
            host,
        ) == c.host_conc[host],
        c.host_conc.contains_key(host) && c.host_conc[host] > c.max_connections ==> first_conc(
            c,
            host,
        ) == c.max_connections,
        conc >= c.max_connections ==> !remembering(c, host, conc).host_conc.contains_key(host),
        conc < c.max_connections ==> remembering(c, host, conc).host_conc.contains_key(host)
            && remembering(c, host, conc).host_conc[host] == conc,
        remembering(c, host, conc).max_connections == c.max_connections,
        remembering(c, host, conc) == (ConfigView {
            host_conc: remembering(c, host, conc).host_conc,
            ..c
        }),
{
}

/// The downloads at work are counted one by one: those that connect or run,
/// and no other.
pub proof fn downloads_at_work_are_counted(a: Seq<Download>, b: Seq<Download>, d: Download)
    ensures
        busy_count(a + b) == busy_count(a) + busy_count(b),
        d.status is Connecting || d.status is Active ==> busy_count(seq![d]) == 1,
        !(d.status is Connecting || d.status is Active) ==> busy_count(seq![d]) == 0,
    decreases b.len(),
{
    assert(seq![d].drop_last() =~= Seq::empty());
    assert(busy_count(Seq::<Download>::empty()) == 0);
    if b.len() == 0 {
        assert(a + b =~= a);
    } else {
        downloads_at_work_are_counted(a, b.drop_last(), d);
        assert((a + b).drop_last() =~= a + b.drop_last());
    }
}

/// "Resume all" takes the downloads that are paused or failed, in the order in
/// which they are listed, and no other.
pub proof fn all_that_rest_are_resumed(a: Seq<Download>, b: Seq<Download>, d: Download)
    ensures
        resumable_ids(a + b) == resumable_ids(a) + resumable_ids(b),
        d.status is Paused || d.status is Failed ==> resumable_ids(seq![d]) == seq![d.id],
        !(d.status is Paused || d.status is Failed) ==> resumable_ids(seq![d]).len() == 0,
    decreases b.len(),
{
    let none = Seq::<Download>::empty();
    assert(seq![d].drop_last() =~= none);
    assert(resumable_ids(none) =~= Seq::empty());
    assert(resumable_ids(none).push(d.id) =~= seq![d.id]);
    if b.len() == 0 {
        assert(a + b =~= a);
        assert(resumable_ids(a) + resumable_ids(b) =~= resumable_ids(a));
    } else {
        all_that_rest_are_resumed(a, b.drop_last(), d);
        assert((a + b).drop_last() =~= a + b.drop_last());
        assert(resumable_ids(a + b) =~= resumable_ids(a) + resumable_ids(b));
    }
}

/// Downloads taken off the list are gone; the others stay, in their order.
pub proof fn only_what_is_named_is_taken_off(
    a: Seq<Download>,
    b: Seq<Download>,
    d: Download,
    ids: Seq<u64>,
)
    ensures
        without_ids(a + b, ids) == without_ids(a, ids) + without_ids(b, ids),
        ids.contains(d.id) ==> without_ids(seq![d], ids).len() == 0,
        !ids.contains(d.id) ==> without_ids(seq![d], ids) == seq![d],
    decreases b.len(),
{
    let none = Seq::<Download>::empty();
    assert(seq![d].drop_last() =~= none);
    assert(without_ids(none, ids) =~= none);
    assert(none.push(d) =~= seq![d]);
    if b.len() == 0 {
        assert(a + b =~= a);
        assert(without_ids(a, ids) + without_ids(b, ids) =~= without_ids(a, ids));
    } else {
        only_what_is_named_is_taken_off(a, b.drop_last(), d, ids);
        assert((a + b).drop_last() =~= a + b.drop_last());
        assert(without_ids(a + b, ids) =~= without_ids(a, ids) + without_ids(b, ids));
    }
}

/// Every download counts with all that it received.
pub proof fn all_bytes_received_count(a: Seq<Download>, b: Seq<Download>, d: Download)
    ensures
        received(a + b) == received(a) + received(b),
        received(seq![d]) == d.done,
    decreases b.len(),
{
    assert(seq![d].drop_last() =~= Seq::empty());
    assert(received(Seq::<Download>::empty()) == 0);
    if b.len() == 0 {
        assert(a + b =~= a);
    } else {
        all_bytes_received_count(a, b.drop_last(), d);
        assert((a + b).drop_last() =~= a + b.drop_last());
    }
}

/// "Pause all" tells every download to pause, or every one that connects or
/// runs; nothing else about them changes, and the others stay as they are.
pub proof fn everybody_is_told_to_pause(ds: Seq<Download>, only_busy: bool, i: int)
    requires
        0 <= i < ds.len(),
    ensures
        paused(ds, only_busy).len() == ds.len(),
        !only_busy || ds[i].status is Connecting || ds[i].status is Active ==> paused(
            ds,
            only_busy,
        )[i] == (Download { pause: true, ..ds[i] }),
        only_busy && !(ds[i].status is Connecting || ds[i].status is Active) ==> paused(
            ds,
            only_busy,
        )[i] == ds[i],
        paused(ds, only_busy)[i].cancel == ds[i].cancel && paused(ds, only_busy)[i].status
            == ds[i].status && paused(ds, only_busy)[i].done == ds[i].done && paused(
            ds,
            only_busy,
        )[i].segs == ds[i].segs,
{
}

/// Where a job does not say how to call oneself, it is by name and version.
pub proof fn programs_tell_their_name()
    ensures
        text::after_prefix(default_agent(), "mdm/"@) == Some("0.10.0"@),
{
    text::beginnings_and_ends_come_off("mdm/"@, "0.10.0"@, ""@);
}

/// A header is sent as the job has it, or not at all: not if it is empty or
/// holds a control character.
pub proof fn headers_are_sent_as_they_are(s: Seq<char>, i: int)
    ensures
        header_of(s) matches Some(t) ==> t == s && s.len() > 0,
        s.len() == 0 ==> header_of(s) is None,
        0 <= i < s.len() && ((s[i] as u32) < 32 && s[i] != '\t' || (s[i] as u32) == 127)
            ==> header_of(s) is None,
        s.len() > 0 && transfer::is_header(s) ==> header_of(s) == Some(s),
{
    if 0 <= i < s.len() {
        transfer::headers_hold_no_control_characters(s, i);
    }
}

/// A complete file takes its place whole: what the part file held is under the
/// new name, the part file and what was kept beside it are gone, and no other
/// file changes.
pub proof fn part_files_are_moved(
    disk: Map<names::PathView, Seq<u8>>,
    path: names::PathView,
    to: names::PathView,
    other: names::PathView,
)
    requires
        to != names::part_of(path),
        to != names::sidecar_of(names::part_of(path)),
    ensures
        ({
            let part = names::part_of(path);
            let after = moved(disk, path, to);
            &&& after.contains_key(to) && after[to] == disk[part]
            &&& !after.contains_key(part)
            &&& !after.contains_key(names::sidecar_of(part))
            &&& other != to && other != part && other != names::sidecar_of(part)
                ==> after.contains_key(other) == disk.contains_key(other) && after[other]
                == disk[other]
        }),
{
}

/// To log a line is to have it last, marked as one, and to lose no line but
/// the oldest of two hundred.
pub proof fn logged_lines_stand_last(before: Vec<String>, after: Vec<String>, line: Seq<char>)
    requires
        logged(before, after, line),
        before@.len() <= 200,
    ensures
        after@.len() == if before@.len() < 200 { before@.len() + 1 } else { 200 },
        after@.last()@ == "> "@ + line,
        forall|i: int|
            0 <= i < after@.len() - 1 ==> (#[trigger] after@[i])@ == before@[i + before@.len() + 1
                - after@.len()]@,
{
    let a = history::text_views(before@);
    let b = history::text_views(after@);
    the_log_loses_its_oldest_line(a, line);
    assert(b.len() == after@.len());
    assert(b.last() == after@.last()@);
    assert forall|i: int| 0 <= i < after@.len() - 1 implies (#[trigger] after@[i])@ == before@[i
        + before@.len() + 1 - after@.len()]@ by {
        assert(b[i] == after@[i]@);
        let j = i + before@.len() + 1 - after@.len();
        assert(a[j] == before@[j]@);
    }
}

/// Downloads are told apart by their numbers, none is used again, and nothing
/// that is kept grows without bound.
pub proof fn downloads_are_told_apart(s: AppState, i: int, j: int)
    requires
        s.well_formed(),
        0 <= i < s.downloads@.len(),
        0 <= j < s.downloads@.len(),
    ensures
        i != j ==> s.downloads@[i].id != s.downloads@[j].id,
        s.downloads@[i].id < s.next_id,
        s.downloads@[i].retries <= 10,
        s.log@.len() <= 200,
{
    if i < j {
        assert(s.downloads@[i].id != s.downloads@[j].id);
    } else if j < i {
        assert(s.downloads@[j].id != s.downloads@[i].id);
    }
}

} // verus!
