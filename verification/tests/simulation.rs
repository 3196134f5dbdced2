//! Whole downloads against a server and a disk in memory, driven step by step
//! by the library's decisions.

use std::collections::{HashMap, VecDeque};

use mdm::config::{Config, Store};
use mdm::engine::{finalize, log_is_full, log_path, names_anew, old_log_path, request_headers, user_agent, AppState, Download, Job, Seg, Status};
use mdm::gate::Gate;
use mdm::names::{locate, part_path, reserve_path, sidecar_path, Created, FilePath};
use mdm::probe::{choose_name, judge_probe, plan_line, probe_again, read_probe, start_transfer, Field, Plan, Probe};
use mdm::queue::{Slot, Turn};
use mdm::sidecar::{judge_orphan, orphan_report, parse_sidecar_name, snapshot, Orphan, SegSave, Sidecar};
use mdm::transfer::{
    abandon, begin_attempt, begin_fetch, begin_stream, end_attempt, first_error, flushed, judge_reply, nap_goes_on,
    needs_resize, next_step, next_stream_step, next_work, open_gate, pending, ramp_up, seal, seal_stream, wrote,
    wrote_stream, Fetch, Heard, Next, Retry, SegErr, Step, Work, FLUSH_EVERY, SEGMENT_RETRIES,
};

/// Above twice the smallest range: the file is cut up.
const BIG: usize = 12 * 1024 * 1024;

const CHUNK: usize = 96 * 1024;

/// Deterministic, and every byte out of place shows.
fn make_body(len: usize) -> Vec<u8> {
    let mut v = Vec::with_capacity(len);
    let mut x: u32 = 0x12345678;
    for _ in 0..len {
        x = x.wrapping_mul(1664525).wrapping_add(1013904223);
        v.push((x >> 24) as u8);
    }
    v
}

struct Server {
    body: Vec<u8>,
    ranges: bool,
    etag: Option<String>,
    /// The version after the grace is used up.
    etag_after_grace: Option<String>,
    /// Requests served normally before anything odd happens.
    grace: u64,
    rate_limit: u64,
    retry_after: Option<String>,
    truncate: u64,
    reject_with: u16,
    hits: u64,
}

impl Server {
    fn new(body: Vec<u8>, ranges: bool, etag: Option<&str>) -> Server {
        Server {
            body,
            ranges,
            etag: etag.map(|s| s.to_string()),
            etag_after_grace: None,
            grace: 0,
            rate_limit: 0,
            retry_after: None,
            truncate: 0,
            reject_with: 0,
            hits: 0,
        }
    }

    fn serve(&mut self, range: Option<&str>, if_range: Option<&str>) -> Reply {
        self.hits += 1;
        let graced = self.grace > 0;
        if graced {
            self.grace -= 1;
        } else if let Some(e) = self.etag_after_grace.take() {
            self.etag = Some(e);
        }
        let mut r = Reply { status: 200, content_range: Field::Absent, retry_after: Field::Absent, data: Vec::new(), cut: false };
        if self.reject_with > 0 {
            r.status = self.reject_with;
            return r;
        }
        if !graced && self.rate_limit > 0 {
            self.rate_limit -= 1;
            r.status = 429;
            if let Some(s) = &self.retry_after {
                r.retry_after = Field::Text(s.clone());
            }
            return r;
        }
        let total = self.body.len();
        let same = if_range.is_none() || if_range == self.etag.as_deref();
        match range {
            Some(v) if self.ranges && same => {
                let (a, b) = v.strip_prefix("bytes=").unwrap().split_once('-').unwrap();
                let (a, b): (usize, usize) = (a.parse().unwrap(), b.parse::<usize>().unwrap().min(total - 1));
                r.status = 206;
                r.content_range = Field::Text(format!("bytes {a}-{b}/{total}"));
                r.data = self.body[a..=b].to_vec();
            }
            _ => r.data = self.body.clone(),
        }
        if !graced && self.truncate > 0 {
            self.truncate -= 1;
            let half = r.data.len() / 2;
            r.data.truncate(half);
            r.cut = true;
        }
        r
    }
}

struct Reply {
    status: u16,
    content_range: Field,
    retry_after: Field,
    data: Vec<u8>,
    cut: bool,
}

fn field(s: &Option<String>) -> Field {
    match s {
        Some(v) => Field::Text(v.clone()),
        None => Field::Absent,
    }
}

type Disk = HashMap<String, Vec<u8>>;

struct World {
    state: AppState,
    server: Server,
    disk: Disk,
    sidecars: HashMap<String, Sidecar>,
    now: u64,
    /// Pause the download once it has so many bytes.
    pause_at: Option<u64>,
}

enum Worker {
    Idle,
    Waiting(usize, Retry),
    Fetching(usize, Retry, u64, Fetch, Reply, usize),
    Ended(Option<String>),
}

impl World {
    fn new(server: Server) -> World {
        let mut state = AppState::default();
        state.config.edit(|c| c.download_dir = "/d".to_string(), 0);
        World { state, server, disk: HashMap::new(), sidecars: HashMap::new(), now: 0, pause_at: None }
    }

    fn job(&self, url: &str) -> Job {
        Job { url: url.to_string(), ..Job::default() }
    }

    /// A new job from its arrival to its end, with retries.
    fn run_job(&mut self, job: Job) -> Option<usize> {
        let k = self.state.submit(job, self.now)?;
        let slot = self.take_turn(k)?;
        let outcome = self.download(k, true);
        self.finish(k, outcome);
        self.state.end_turn(slot);
        while let Some(wait) = self.state.retry(k) {
            self.now += wait * 1_000_000_000;
            self.resume(k);
        }
        Some(k)
    }

    fn take_turn(&mut self, k: usize) -> Option<Slot> {
        let ticket = self.state.join_queue(k);
        match self.state.ask_turn(k, ticket) {
            Turn::Granted(s) => Some(s),
            _ => None,
        }
    }

    fn resume(&mut self, k: usize) {
        if !self.state.begin_resume(k) {
            return;
        }
        let slot = self.take_turn(k).expect("nobody else runs");
        self.carry_on(k);
        self.state.end_turn(slot);
    }

    /// What a resumed download does with its turn.
    fn carry_on(&mut self, k: usize) {
        let part = part_path(&self.state.downloads[k].path);
        let there = self.disk.contains_key(&part.name);
        let outcome = if self.state.plan_resume(k, there) {
            let url = self.state.downloads[k].job.url.clone();
            let start = self.state.remembered_conc(&url);
            self.run_segments(k, &part, start).and_then(|_| self.finalize(k))
        } else {
            self.download(k, false)
        };
        self.finish(k, outcome);
    }

    fn finish(&mut self, k: usize, outcome: Result<String, String>) {
        let part = part_path(&self.state.downloads[k].path);
        let f = self.state.finish(k, outcome, self.now, 1);
        if f.save {
            self.sidecars.insert(sidecar_path(&part).name, snapshot(&self.state.downloads[k]));
        }
        if f.erase {
            self.disk.remove(&part.name);
            self.sidecars.remove(&sidecar_path(&part).name);
        }
    }

    fn probe(&mut self) -> Probe {
        let mut attempt = 1;
        loop {
            let r = self.server.serve(Some("bytes=0-0"), None);
            if let Some(ms) = probe_again(r.status, attempt) {
                self.now += ms * 1_000_000;
                attempt += 1;
                continue;
            }
            return Probe {
                status: r.status,
                disposition: Field::Absent,
                content_length: Field::Text(r.data.len().to_string()),
                content_range: r.content_range,
                etag: field(&self.server.etag),
                last_modified: Field::Absent,
            };
        }
    }

    fn download(&mut self, k: usize, fresh: bool) -> Result<String, String> {
        let probe = self.probe();
        if let Some(e) = judge_probe(&mut self.state.downloads[k], probe.status) {
            return Err(e);
        }
        let mut remote = read_probe(&probe);
        let path = if names_anew(&self.state.downloads[k], fresh) {
            let name = choose_name(&self.state.downloads[k].job, remote.name.take());
            let dir = self.state.dl_dir(None)?;
            let disk = std::cell::RefCell::new(&mut self.disk);
            reserve_path(
                &FilePath::new(&dir, &name),
                |p: &FilePath| disk.borrow().contains_key(&p.name),
                |p: &FilePath| {
                    let mut d = disk.borrow_mut();
                    if d.contains_key(&p.name) {
                        return Created::Taken;
                    }
                    d.insert(p.name.clone(), Vec::new());
                    Created::Made
                },
            )?
        } else {
            self.state.downloads[k].path.clone()
        };
        let part = part_path(&path);
        let max = self.state.max_conc();
        let len = remote.len;
        let plan = start_transfer(&mut self.state.downloads[k], path, remote, max);
        match plan {
            Plan::Segmented => {
                self.disk.insert(part.name.clone(), vec![0; len.unwrap() as usize]);
                let url = self.state.downloads[k].job.url.clone();
                let start = self.state.remembered_conc(&url);
                self.run_segments(k, &part, start)?;
            }
            Plan::Single { reuse } => {
                assert!(reuse);
                self.single_stream(k, &part)?;
            }
        }
        self.finalize(k)
    }

    fn finalize(&mut self, k: usize) -> Result<String, String> {
        let disk = &self.disk;
        let files = finalize(&mut self.state.downloads[k], |p: &FilePath| disk.contains_key(&p.name));
        assert_eq!(files.to.name, self.state.downloads[k].path.name);
        let data = self.disk.remove(&files.from.name).unwrap();
        self.disk.insert(files.to.name.clone(), data);
        self.sidecars.remove(&files.stale.name);
        Ok(files.to.name)
    }

    fn single_stream(&mut self, k: usize, part: &FilePath) -> Result<(), String> {
        let r = self.server.serve(None, None);
        let dl = &mut self.state.downloads[k];
        if let Some(e) = begin_stream(dl, r.status, Some(self.server.body.len() as u64)) {
            return Err(e);
        }
        let mut file = Vec::new();
        let mut written = 0;
        loop {
            let heard = if dl.interrupted() {
                Heard::Interrupted
            } else if file.len() == r.data.len() {
                Heard::Closed
            } else {
                Heard::Chunk(CHUNK.min(r.data.len() - file.len()) as u64)
            };
            match next_stream_step(heard) {
                Step::Write(n) => {
                    let at = file.len();
                    file.extend_from_slice(&r.data[at..at + n as usize]);
                    wrote_stream(dl, &mut written, n);
                }
                Step::Seal => break,
                Step::Abandon(e) => return Err(e),
            }
        }
        self.disk.insert(part.name.clone(), file);
        match seal_stream(dl, written) {
            Some(e) => Err(e),
            None => Ok(()),
        }
    }

    fn run_segments(&mut self, k: usize, part: &FilePath, start: u64) -> Result<(), String> {
        let url = self.state.downloads[k].job.url.clone();
        let max = self.state.max_conc();
        let total = self.state.downloads[k].total;
        let actual = self.disk.get(&part.name).map(|f| f.len() as u64);
        if needs_resize(actual, total) {
            self.disk.entry(part.name.clone()).or_default().resize(total as usize, 0);
        }
        let mut gate = open_gate(&mut self.state.downloads[k], start, max, self.now);
        let mut todo = pending(&self.state.downloads[k].segs);
        let mut workers: Vec<Worker> = (0..gate.cap()).map(|_| Worker::Idle).collect();
        while workers.iter().any(|w| !matches!(w, Worker::Ended(_))) {
            for w in workers.iter_mut() {
                let before = std::mem::replace(w, Worker::Idle);
                *w = self.step(k, part, before, &mut gate, &mut todo);
            }
            let dl = &mut self.state.downloads[k];
            ramp_up(&mut gate, dl, self.now);
            if self.pause_at.is_some_and(|n| dl.done >= n) {
                dl.pause = true;
            }
        }
        let conc = self.state.downloads[k].conc;
        self.state.remember_conc(&url, conc, self.now);
        let outcomes = workers
            .into_iter()
            .map(|w| match w {
                Worker::Ended(e) => e,
                _ => None,
            })
            .collect();
        match first_error(outcomes) {
            Some(e) => Err(e),
            None => Ok(()),
        }
    }

    fn step(&mut self, k: usize, part: &FilePath, w: Worker, gate: &mut Gate, todo: &mut VecDeque<usize>) -> Worker {
        let now = self.now;
        let dl = &mut self.state.downloads[k];
        match w {
            Worker::Ended(e) => Worker::Ended(e),
            Worker::Idle => match next_work(dl, todo, gate) {
                Work::Take(i) => Worker::Waiting(i, Retry::new()),
                Work::Wait => Worker::Idle,
                Work::Exit => Worker::Ended(None),
            },
            Worker::Waiting(i, retry) => {
                let Some(before) = begin_attempt(dl, i) else {
                    return Worker::Ended(Some("interrotto".to_string()));
                };
                if !gate.enter() {
                    return Worker::Waiting(i, retry);
                }
                let Some((fetch, req)) = begin_fetch(dl, i) else {
                    return self.end(k, i, retry, gate, before, Ok(()));
                };
                let r = self.server.serve(Some(&req.range), req.if_range.as_deref());
                let has_validator = self.state.downloads[k].validator.is_some();
                match judge_reply(r.status, &r.retry_after, has_validator) {
                    Some(e) => self.end(k, i, retry, gate, before, Err(e)),
                    None => Worker::Fetching(i, retry, before, fetch, r, 0),
                }
            }
            Worker::Fetching(i, retry, before, mut f, r, off) => {
                let heard = if dl.interrupted() {
                    Heard::Interrupted
                } else if off < r.data.len() {
                    Heard::Chunk(CHUNK.min(r.data.len() - off) as u64)
                } else if r.cut {
                    Heard::Broken("connessione persa".to_string())
                } else {
                    Heard::Closed
                };
                let seen = if let Heard::Chunk(n) = heard { n } else { 0 };
                match next_step(&f, &dl.segs[i], heard) {
                    Step::Write(take) => {
                        let at = f.pos as usize;
                        let file = self.disk.get_mut(&part.name).unwrap();
                        file[at..at + take as usize].copy_from_slice(&r.data[off..off + take as usize]);
                        let more = wrote(&mut f, dl, i, take, seen);
                        if more.flush {
                            flushed(&mut f, dl, i);
                        }
                        assert!(dl.segs[i].done - dl.segs[i].flushed < FLUSH_EVERY);
                        if !more.more {
                            let res = seal(dl, i);
                            return self.end(k, i, retry, gate, before, res);
                        }
                        Worker::Fetching(i, retry, before, f, r, off + take as usize)
                    }
                    Step::Seal => {
                        let res = seal(dl, i);
                        self.end(k, i, retry, gate, before, res)
                    }
                    Step::Abandon(why) => {
                        let e = abandon(dl, i, why);
                        let _ = now;
                        self.end(k, i, retry, gate, before, Err(e))
                    }
                }
            }
        }
    }

    fn end(&mut self, k: usize, i: usize, mut retry: Retry, gate: &mut Gate, before: u64, res: Result<(), SegErr>) -> Worker {
        let dl = &mut self.state.downloads[k];
        match end_attempt(&mut retry, gate, dl, i, before, res, self.now) {
            Next::Done => Worker::Idle,
            Next::Fail(e) => Worker::Ended(Some(e)),
            Next::Nap(secs) => {
                let mut ticks = 0;
                while nap_goes_on(dl, ticks, secs) {
                    ticks += 1;
                    self.now += 500_000_000;
                }
                Worker::Waiting(i, retry)
            }
        }
    }

    fn output(&self, k: usize) -> &Vec<u8> {
        self.disk.get(&self.state.downloads[k].path.name).expect("no file")
    }

    fn assert_clean(&self) {
        assert!(self.disk.keys().all(|n| !n.ends_with(".part")));
        assert!(self.sidecars.is_empty());
    }
}

const URL: &str = "http://127.0.0.1:1/file.bin";

#[test]
fn segmented_download_is_byte_exact() {
    let body = make_body(BIG);
    let mut w = World::new(Server::new(body.clone(), true, Some("\"v1\"")));
    let k = w.run_job(w.job(URL)).unwrap();
    assert!(matches!(w.state.downloads[k].status, Status::Done));
    assert!(*w.output(k) == body, "not the remote file");
    // it was really cut up
    assert!(w.state.downloads[k].segs.len() > 1);
    assert_eq!(w.state.downloads[k].done, BIG as u64);
    w.assert_clean();
}

#[test]
fn work_is_stolen_and_the_file_is_whole() {
    let body = make_body(3 * BIG);
    let mut w = World::new(Server::new(body.clone(), true, Some("\"v1\"")));
    // one range holds back the others: the host refused all but one connection
    w.state.config.edit(|c| c.host_conc.insert("127.0.0.1:1".to_string(), 1), 0);
    let k = w.run_job(w.job(URL)).unwrap();
    assert!(*w.output(k) == body);
    let segs = &w.state.downloads[k].segs;
    let mut sorted: Vec<Seg> = segs.clone();
    sorted.sort_by_key(|s| s.start);
    assert_eq!(sorted[0].start, 0);
    for p in sorted.windows(2) {
        assert_eq!(p[0].end + 1, p[1].start);
    }
    assert_eq!(sorted.last().unwrap().end, 3 * BIG as u64 - 1);
}

#[test]
fn no_range_server_falls_back_to_single_stream() {
    let body = make_body(BIG);
    let mut w = World::new(Server::new(body.clone(), false, None));
    let k = w.run_job(w.job(URL)).unwrap();
    assert!(matches!(w.state.downloads[k].status, Status::Done));
    assert!(*w.output(k) == body);
    assert!(!w.state.downloads[k].resumable, "without ranges it cannot go on");
    w.assert_clean();
}

#[test]
fn rate_limiting_shrinks_concurrency_but_completes() {
    let body = make_body(BIG);
    let mut w = World::new(Server::new(body.clone(), true, Some("\"v1\"")));
    // the probe passes, then the ranges are refused
    w.server.retry_after = Some(" 0 ".to_string());
    w.server.grace = 1;
    w.server.rate_limit = 6;
    let k = w.run_job(w.job(URL)).unwrap();
    assert!(matches!(w.state.downloads[k].status, Status::Done));
    assert!(*w.output(k) == body);
    let conc = w.state.downloads[k].conc;
    assert!(conc < 8, "the connections had to be reduced");
    // and the host is remembered for it
    assert_eq!(w.state.remembered_conc(URL), conc);
    assert_eq!(w.state.config.get().host_conc.get("127.0.0.1:1"), Some(conc));
    assert_eq!(w.state.remembered_conc("http://other/x"), 8);
}

#[test]
fn truncated_response_is_retried_without_holes() {
    let body = make_body(BIG);
    let mut w = World::new(Server::new(body.clone(), true, Some("\"v1\"")));
    w.server.grace = 1; // the probe passes whole
    w.server.truncate = 4;
    let k = w.run_job(w.job(URL)).unwrap();
    assert!(matches!(w.state.downloads[k].status, Status::Done));
    assert!(*w.output(k) == body);
}

#[test]
fn pause_then_resume_produces_the_same_file() {
    let body = make_body(BIG);
    let mut w = World::new(Server::new(body.clone(), true, Some("\"v1\"")));
    w.pause_at = Some(BIG as u64 / 8);
    let k = w.run_job(w.job(URL)).unwrap();
    assert!(matches!(w.state.downloads[k].status, Status::Paused));
    let before = w.state.downloads[k].done;
    assert!(before > 0 && before < BIG as u64, "in the middle, not at either end");
    w.pause_at = None;
    w.resume(k);
    assert!(matches!(w.state.downloads[k].status, Status::Done));
    assert!(*w.output(k) == body);
    w.assert_clean();
}

#[test]
fn sidecar_restores_download_after_a_crash() {
    let body = make_body(BIG);
    let mut w = World::new(Server::new(body.clone(), true, Some("\"v1\"")));
    w.pause_at = Some(BIG as u64 / 8);
    w.run_job(w.job(URL)).unwrap();
    // a new process: nothing but what is on disk
    let mut fresh = World::new(w.server);
    fresh.disk = w.disk;
    for (name, sc) in w.sidecars {
        let (part, file) = parse_sidecar_name(&name).expect("a sidecar");
        assert!(fresh.disk.contains_key(&part));
        fresh.state.restore(sc, FilePath::new("/d", &file), 0);
    }
    assert_eq!(fresh.state.downloads.len(), 1, "nothing restored");
    assert!(matches!(fresh.state.downloads[0].status, Status::Paused));
    assert!(fresh.state.downloads[0].done > 0, "what was flushed had to survive");
    assert_eq!(fresh.state.log.last().unwrap(), "> ripristinato dal disco: file.bin (riprendi quando vuoi)");
    fresh.resume(0);
    assert!(matches!(fresh.state.downloads[0].status, Status::Done));
    assert!(*fresh.output(0) == body, "the file put together after the crash is another");
}

#[test]
fn file_changed_on_server_fails_instead_of_corrupting() {
    let mut w = World::new(Server::new(make_body(BIG), true, Some("\"v1\"")));
    // right after the probe the server has another version of the file
    w.server.grace = 1;
    w.server.etag_after_grace = Some("\"v2\"".to_string());
    let k = w.run_job(w.job(URL)).unwrap();
    match &w.state.downloads[k].status {
        Status::Failed(e) => assert!(e.contains("cambiato"), "unclear: {e}"),
        other => panic!("it had to fail: {other:?}"),
    }
    assert!(!w.disk.contains_key("file.bin"), "no file of mixed bytes");
    assert_eq!(w.state.downloads[k].retries, 0);
}

#[test]
fn queue_caps_how_many_run_at_once() {
    let body = make_body(BIG);
    let mut w = World::new(Server::new(body.clone(), true, Some("\"v1\"")));
    w.state.config.edit(|c| c.max_concurrent_downloads = 1, 0);
    w.state.apply_config();
    let mut waiting: Vec<(usize, u64)> = Vec::new();
    for i in 0..3 {
        let job = w.job(&format!("{URL}?n={i}"));
        let k = w.state.submit(job, 0).unwrap();
        let ticket = w.state.join_queue(k);
        waiting.push((k, ticket));
    }
    assert!(w.state.downloads.iter().all(|d| matches!(d.status, Status::Queued)));
    let mut order = Vec::new();
    while !waiting.is_empty() {
        let mut running = None;
        waiting.retain(|(k, t)| match w.state.ask_turn(*k, *t) {
            Turn::Granted(s) => {
                assert!(running.is_none(), "more than one at once");
                running = Some((*k, s));
                false
            }
            _ => true,
        });
        assert!(w.state.busy() <= 1);
        let (k, slot) = running.expect("somebody gets a turn");
        let outcome = w.download(k, true);
        w.finish(k, outcome);
        w.state.end_turn(slot);
        order.push(k);
    }
    assert_eq!(order, vec![0, 1, 2]);
    for k in 0..3 {
        assert!(matches!(w.state.downloads[k].status, Status::Done), "all complete in the end");
        assert!(*w.output(k) == body);
    }
    assert_eq!(w.state.downloads[2].path.name, "file (2).bin");
}

#[test]
fn resume_all_respects_the_queue_limit() {
    let body = make_body(BIG);
    let mut w = World::new(Server::new(body.clone(), true, Some("\"v1\"")));
    w.pause_at = Some(BIG as u64 / 16);
    for i in 0..3 {
        w.run_job(w.job(&format!("{URL}?r={i}"))).unwrap();
    }
    assert!(w.state.downloads.iter().all(|d| matches!(d.status, Status::Paused)));
    w.pause_at = None;
    w.state.config.edit(|c| c.max_concurrent_downloads = 1, 0);
    w.state.apply_config();
    let ids = w.state.resumable();
    assert_eq!(ids.len(), 3);
    let mut waiting: Vec<(usize, u64)> = Vec::new();
    for id in ids {
        let k = w.state.find(id).unwrap();
        assert!(w.state.begin_resume(k));
        let ticket = w.state.join_queue(k);
        waiting.push((k, ticket));
    }
    assert_eq!(w.state.downloads[2].queue_pos, 2);
    while !waiting.is_empty() {
        let (k0, t0) = waiting.remove(0);
        let Turn::Granted(slot) = w.state.ask_turn(k0, t0) else { panic!("the first gets its turn") };
        for (i, (k, t)) in waiting.iter().enumerate() {
            assert!(matches!(w.state.ask_turn(*k, *t), Turn::Wait));
            assert_eq!(w.state.downloads[*k].queue_pos, i as u64);
        }
        assert_eq!(w.state.busy(), 1);
        w.carry_on(k0);
        w.state.end_turn(slot);
    }
    for k in 0..3 {
        assert!(matches!(w.state.downloads[k].status, Status::Done));
        assert!(*w.output(k) == body);
    }
    assert!(w.sidecars.is_empty());
    assert!(w.disk.keys().all(|name| !name.ends_with(".part")), "no part file is left");
}

#[test]
fn dead_link_fails_once_without_retrying() {
    let mut w = World::new(Server::new(make_body(1024), true, None));
    w.server.reject_with = 404;
    let k = w.run_job(w.job(URL)).unwrap();
    match &w.state.downloads[k].status {
        Status::Failed(e) => assert_eq!(e, "il server rifiuta il download (status 404 Not Found)"),
        other => panic!("it had to fail: {other:?}"),
    }
    assert_eq!(w.state.downloads[k].retries, 0, "a dead link is not retried");
    assert_eq!(w.now, 0, "nobody waited");
    assert!(w.server.hits <= 3, "too many requests for a dead link");
    // it had no name yet: nothing is kept of it
    assert!(w.sidecars.is_empty());
}

#[test]
fn a_broken_server_is_retried_with_backoff() {
    let mut w = World::new(Server::new(make_body(1024), true, None));
    w.server.reject_with = 503;
    let k = w.state.submit(w.job(URL), 0).unwrap();
    let slot = w.take_turn(k).unwrap();
    let outcome = w.download(k, true);
    assert_eq!(outcome, Err("status 503 Service Unavailable".to_string()));
    w.finish(k, outcome);
    w.state.end_turn(slot);
    assert!(matches!(&w.state.downloads[k].status, Status::Failed(_)));
    assert_eq!(w.state.retry(k), Some(5));
    assert_eq!(w.state.retry(k), Some(15));
    assert_eq!(w.state.retry(k), Some(45));
    assert_eq!(w.state.log.last().unwrap(), &format!("> ritento tra 45s (3/3): {URL}"));
    assert_eq!(w.state.retry(k), None);
    // it failed before it had a name: once the server works, it chooses one
    assert!(names_anew(&w.state.downloads[k], false));
    w.server.reject_with = 0;
    w.resume(k);
    assert!(matches!(&w.state.downloads[k].status, Status::Done));
    assert_eq!(w.state.downloads[k].name, "file.bin");
    assert!(*w.output(k) == make_body(1024));
    assert!(!names_anew(&w.state.downloads[k], false));
    assert!(names_anew(&w.state.downloads[k], true));
}

#[test]
fn probes_are_repeated_while_the_server_is_busy() {
    assert_eq!(probe_again(429, 1), Some(2500));
    assert_eq!(probe_again(429, 2), Some(5000));
    assert_eq!(probe_again(429, 3), None);
    assert_eq!(probe_again(200, 1), None);
    let mut d = Download::new(0, Job::default(), 8, 0);
    assert_eq!(judge_probe(&mut d, 429), Some("status 429 Too Many Requests".to_string()));
    assert_eq!(judge_probe(&mut d, 408), Some("status 408 Request Timeout".to_string()));
    assert_eq!(judge_probe(&mut d, 799), Some("status 799 <unknown status code>".to_string()));
    assert!(!d.fatal);
    assert_eq!(judge_probe(&mut d, 206), None);
    judge_probe(&mut d, 403);
    assert!(d.fatal && d.interrupted());
}

#[test]
fn probes_are_read() {
    let probe = |status: u16, length: &str, etag: Field, modified: Field| Probe {
        status,
        disposition: Field::Text("attachment; filename=a.zip".to_string()),
        content_range: Field::Text("bytes 0-0/77".to_string()),
        content_length: Field::Text(length.to_string()),
        etag,
        last_modified: modified,
    };
    let r = read_probe(&probe(206, "1", Field::Text("e".to_string()), Field::Text("m".to_string())));
    assert!(r.ranges);
    assert_eq!(r.len, Some(77));
    assert_eq!(r.name.as_deref(), Some("a.zip"));
    assert_eq!(r.validator.as_deref(), Some("e"));
    let r = read_probe(&probe(200, "88", Field::Absent, Field::Text("m".to_string())));
    assert!(!r.ranges);
    assert_eq!(r.len, Some(88));
    assert_eq!(r.validator.as_deref(), Some("m"));
    // an unreadable tag is a tag all the same
    let r = read_probe(&probe(200, "0", Field::Opaque, Field::Text("m".to_string())));
    assert_eq!(r.len, None);
    assert_eq!(r.validator, None);
    assert_eq!(plan_line(&r, 1, 8, 8), "stream singolo (il server non supporta Range)");
    let r = read_probe(&probe(206, "", Field::Absent, Field::Absent));
    assert_eq!(plan_line(&r, 1, 8, 8), "1 connessione (77 B), resume disponibile");
    assert_eq!(plan_line(&r, 3, 8, 8), "3 segmenti paralleli, 77 B");
    assert_eq!(plan_line(&r, 3, 2, 8), "3 segmenti, parto con 2 connessioni (host già rate-limitato)");
}

#[test]
fn names_are_chosen_in_order() {
    let mut job = Job { url: "http://h/p%20q.iso".to_string(), ..Job::default() };
    assert_eq!(choose_name(&job, Some("server.zip".to_string())), "server.zip");
    assert_eq!(choose_name(&job, None), "p q.iso");
    job.filename = "asked:for.zip".to_string();
    assert_eq!(choose_name(&job, Some("server.zip".to_string())), "asked_for.zip");
}

#[test]
fn settings_are_put_in_force() {
    let (store, _) = Store::load(Some(Config { speed_limit_kbps: 77, ..Config::default() }));
    let mut s = AppState::with_config(store, 5);
    assert_eq!(s.limiter.limit_kbps(), 77);
    s.config.edit(|c| c.speed_limit_kbps = 0, 0);
    assert_eq!(s.limiter.limit_kbps(), 77);
    s.apply_config();
    assert_eq!(s.limiter.limit_kbps(), 0);
    assert_eq!(s.max_conc(), 8);
    assert_eq!(s.dl_dir(Some("/sys".to_string())), Ok("/sys".to_string()));
    assert_eq!(s.dl_dir(None), Err("cartella Downloads non trovata".to_string()));
    s.config.edit(|c| c.download_dir = "/own".to_string(), 0);
    assert_eq!(s.dl_dir(None), Ok("/own".to_string()));
    s.change_settings(Config { max_connections: 99, speed_limit_kbps: 5, ..Config::default() }, 1);
    assert_eq!((s.max_conc(), s.limiter.limit_kbps()), (16, 5));
    assert!(s.config.is_dirty());
}

#[test]
fn the_log_file_has_its_place() {
    assert_eq!(log_path("/data").name, "mdm.log");
    assert_eq!(old_log_path("/data").name, "mdm.log.1");
    assert!(!log_is_full(2 * 1024 * 1024));
    assert!(log_is_full(2 * 1024 * 1024 + 1));
}

#[test]
fn the_same_link_is_taken_once() {
    let mut w = World::new(Server::new(make_body(10), true, None));
    assert_eq!(w.state.submit(w.job(URL), 0), Some(0));
    assert_eq!(w.state.submit(w.job(URL), 0), None);
    assert_eq!(w.state.log.last().unwrap(), &format!("> ignorato (già in lista): {URL}"));
    w.state.downloads[0].status = Status::Failed("x".to_string());
    assert_eq!(w.state.submit(w.job(URL), 0), Some(1));
    assert!(w.state.show_window);
    assert_eq!(w.state.downloads[1].id, 1);
}

#[test]
fn endings_are_told_apart() {
    let mut w = World::new(Server::new(make_body(10), true, None));
    w.state.submit(w.job(URL), 0);
    w.state.downloads[0].path = FilePath::new("/d", "f");
    w.state.downloads[0].done = 5;
    let f = w.state.finish(0, Ok("/d/f".to_string()), 7_500_000_000, 99);
    assert!(matches!(w.state.downloads[0].status, Status::Done));
    assert!(!f.save && !f.erase);
    assert_eq!(f.notice.unwrap().0, "Download completato");
    let e = f.entry.unwrap();
    assert_eq!((e.bytes, e.secs, e.at, e.ok), (5, 7, 99, true));
    assert_eq!(w.state.log.last().unwrap(), "> completato: /d/f");

    // a pause goes before a cancellation
    w.state.downloads[0].pause = true;
    w.state.downloads[0].cancel = true;
    let f = w.state.finish(0, Err("interrotto".to_string()), 0, 0);
    assert!(matches!(w.state.downloads[0].status, Status::Paused));
    assert!(f.save && !f.erase && f.notice.is_none() && f.entry.is_none());

    w.state.downloads[0].pause = false;
    let f = w.state.finish(0, Err("interrotto".to_string()), 0, 0);
    assert!(matches!(w.state.downloads[0].status, Status::Cancelled));
    assert!(!f.save && f.erase && f.notice.is_none() && f.entry.is_some());

    w.state.downloads[0].cancel = false;
    let f = w.state.finish(0, Err("rete giù".to_string()), 0, 0);
    assert!(matches!(&w.state.downloads[0].status, Status::Failed(e) if e == "rete giù"));
    assert!(f.save && f.notice.is_none());
    assert_eq!(w.state.log.last().unwrap(), &format!("> ERRORE: rete giù — url: {URL}"));

    w.state.downloads[0].set_fatal("finita");
    let f = w.state.finish(0, Err("interrotto".to_string()), 0, 0);
    assert!(matches!(&w.state.downloads[0].status, Status::Failed(e) if e == "finita"));
    assert!(f.notice.unwrap().1.ends_with("\nfinita"));
}

#[test]
fn cancelled_in_the_queue() {
    let mut w = World::new(Server::new(make_body(10), true, None));
    w.state.submit(w.job(URL), 0);
    let ticket = w.state.join_queue(0);
    w.state.downloads[0].cancel = true;
    assert!(matches!(w.state.ask_turn(0, ticket), Turn::GivenUp));
    assert!(matches!(w.state.downloads[0].status, Status::Cancelled));
    assert_eq!(w.state.log.last().unwrap(), &format!("> annullato in coda: {URL}"));
}

#[test]
fn the_log_keeps_the_last_lines() {
    let mut w = World::new(Server::new(make_body(10), true, None));
    for i in 0..205 {
        w.state.log(&format!("{i}"));
    }
    assert_eq!(w.state.log.len(), 200);
    assert_eq!(w.state.log[0], "> 5");
    assert_eq!(w.state.log[199], "> 204");
    w.state.clear_log();
    assert!(w.state.log.is_empty());
}

#[test]
fn downloads_are_paused_counted_and_removed() {
    let mut w = World::new(Server::new(make_body(10), true, None));
    for i in 0..4 {
        w.state.submit(w.job(&format!("{URL}{i}")), 0);
        w.state.downloads[i].done = 10;
    }
    w.state.downloads[1].status = Status::Active;
    w.state.downloads[2].status = Status::Failed("x".to_string());
    assert_eq!(w.state.busy(), 1);
    assert_eq!(w.state.resumable(), vec![2]);
    assert_eq!(w.state.session_total(), 40);
    w.state.pause_all(true);
    assert_eq!(w.state.downloads.iter().filter(|d| d.pause).count(), 1);
    w.state.pause_all(false);
    assert!(w.state.downloads.iter().all(|d| d.pause));
    w.state.remove(&vec![0, 2, 9]);
    assert_eq!(w.state.downloads.iter().map(|d| d.id).collect::<Vec<u64>>(), vec![1, 3]);
    assert_eq!(w.state.find(3), Some(1));
    assert_eq!(w.state.find(0), None);
    let (part, sc) = w.state.discard(0);
    assert_eq!((part.name.as_str(), sc.name.as_str()), (".part", ".part.mdm.json"));
    assert!(matches!(w.state.downloads[0].status, Status::Cancelled));
}

#[test]
fn headers_and_names_go_with_a_job() {
    let mut job = Job::default();
    assert_eq!(user_agent(&job), "mdm/0.10.0");
    job.user_agent = "Chrome".to_string();
    job.cookies = "a=1".to_string();
    job.referrer = "https://x\n".to_string();
    assert_eq!(user_agent(&job), "Chrome");
    let h = request_headers(&job);
    assert_eq!(h.cookie.as_deref(), Some("a=1"));
    assert_eq!(h.referer, None);
    job.referrer = "https://è\t".to_string();
    job.cookies = "\u{7f}".to_string();
    let h = request_headers(&job);
    assert_eq!(h.referer.as_deref(), Some("https://è\t"));
    assert_eq!(h.cookie, None);
}

#[test]
fn updates_are_noted_once() {
    let mut w = World::new(Server::new(make_body(10), true, None));
    let info = || mdm::update::UpdateInfo { version: "v9.0.0".to_string(), url: "u".to_string(), sha256: None };
    assert!(w.state.note_update(info()));
    assert_eq!(w.state.log.last().unwrap(), "> aggiornamento disponibile: v9.0.0 (sei su v0.10.0)");
    assert!(!w.state.note_update(info()));
    assert!(w.state.begin_update());
    assert!(!w.state.begin_update());
    w.state.fail_update("rete");
    assert!(w.state.begin_update());
}

#[test]
fn sidecar_roundtrip() {
    let sc = Sidecar {
        job: Job {
            url: "https://x.it/f.zip".into(),
            filename: "f.zip".into(),
            referrer: String::new(),
            cookies: "a=1".into(),
            user_agent: "ua".into(),
        },
        total: 1000,
        resumable: true,
        validator: Some("\"abc123\"".into()),
        segments: vec![SegSave { start: 0, end: 499, done: 100 }, SegSave { start: 500, end: 999, done: 0 }],
    };
    let mut w = World::new(Server::new(make_body(10), true, None));
    w.state.restore(sc, FilePath::new("/d", "f.zip"), 0);
    let back = snapshot(&w.state.downloads[0]);
    assert_eq!(back.total, 1000);
    assert!(back.resumable);
    assert_eq!(back.validator.as_deref(), Some("\"abc123\""));
    assert_eq!(back.segments.len(), 2);
    assert_eq!(back.segments[0].done, 100);
    assert_eq!(back.job.cookies, "a=1");
    assert_eq!(w.state.downloads[0].done, 100);
}

#[test]
fn only_flushed_bytes_are_kept() {
    let mut d = Download::new(0, Job::default(), 8, 0);
    d.segs = vec![Seg { done: 90, ..Seg::new(0, 99, 40) }, Seg { done: 0, ..Seg::new(100, 109, 50) }];
    let sc = snapshot(&d);
    assert_eq!((sc.segments[0].done, sc.segments[1].done), (40, 10));
}

#[test]
fn orphans_are_judged() {
    assert_eq!(judge_orphan("f.zip.part", false, Some(0)), Orphan::Remove);
    assert_eq!(judge_orphan("f.zip.part", false, Some(5)), Orphan::Report);
    assert_eq!(judge_orphan("f.zip.part", false, None), Orphan::Ignore);
    assert_eq!(judge_orphan("f.zip.part", true, Some(0)), Orphan::Ignore);
    assert_eq!(judge_orphan("f.zip", false, Some(0)), Orphan::Ignore);
    assert_eq!(judge_orphan(".part", false, Some(0)), Orphan::Ignore);
    assert_eq!(orphan_report(0), None);
    assert!(orphan_report(2).unwrap().starts_with("2 file .part senza stato"));
    assert!(parse_sidecar_name("f.zip.mdm.json").is_none());
    assert!(parse_sidecar_name("f.zip.part").is_none());
}

#[test]
fn a_sidecar_without_a_name_comes_back_under_the_folders() {
    for (name, file, shown, tail) in [
        (".part.mdm.json", "", "dl", "/"),
        ("..part.mdm.json", ".", "dl", "/."),
        ("...part.mdm.json", "..", "", ""),
    ] {
        let (part, found) = parse_sidecar_name(name).unwrap();
        assert_eq!((part.as_str(), found.as_str()), (name.strip_suffix(".mdm.json").unwrap(), file));
        let path = locate("/home/dl", Some("/home".to_string()), "dl", &found);
        assert_eq!(path.tail, tail);
        let full = format!("{}/{}", path.dir, part_path(&path).name);
        assert_eq!(full, format!("/home/dl/{part}"));
        let sc = Sidecar {
            job: Job::default(),
            total: 10,
            resumable: true,
            validator: None,
            segments: vec![SegSave { start: 0, end: 9, done: 4 }],
        };
        let mut w = World::new(Server::new(make_body(10), true, None));
        w.state.restore(sc, path, 7);
        let d = &w.state.downloads[0];
        assert_eq!(d.name, shown);
        assert_eq!((d.conc, d.started, d.queue_pos, d.done), (8, 7, 0, 4));
        // there is such a folder, so the file gets a name beside it
        let mut d = w.state.downloads.remove(0);
        let files = finalize(&mut d, |p: &FilePath| !p.name.ends_with(')'));
        let beside = if shown.is_empty() { ("/home/dl", " (1)") } else { ("/home", "dl (1)") };
        assert_eq!((files.to.dir.as_str(), files.to.name.as_str()), beside);
        assert_eq!(d.name, beside.1);
    }
    let root = locate("/", None, "", "");
    assert_eq!((root.dir.as_str(), root.name.as_str(), part_path(&root).name.as_str()), ("", "", "/.part"));
    assert_eq!(root.shown_name(), "");
    assert!(!root.is_empty());
    let plain = locate("/d", Some("/".to_string()), "d", "f.zip");
    assert_eq!((plain.dir.as_str(), plain.name.as_str(), plain.tail.as_str()), ("/d", "f.zip", ""));
}

#[test]
fn a_range_is_given_up_after_enough_failures() {
    let mut d = Download::new(0, Job::default(), 8, 0);
    d.segs = vec![Seg::new(0, 99, 0)];
    let mut retry = Retry::new();
    let mut gate = Gate::new(1, 1, 0);
    for n in 1..=SEGMENT_RETRIES {
        assert!(gate.enter());
        let res = Err(SegErr::Other("rete".to_string()));
        match end_attempt(&mut retry, &mut gate, &mut d, 0, 0, res, 0) {
            Next::Nap(s) => assert!(n < SEGMENT_RETRIES && s == n as u64),
            Next::Fail(e) => assert!(n == SEGMENT_RETRIES && e == "rete"),
            Next::Done => panic!("not done"),
        }
    }
    // a byte received clears the count
    let mut retry = Retry { attempts: 7, rl_hits: 12 };
    d.segs[0].done = 1;
    assert!(gate.enter());
    let res = Err(SegErr::RateLimited(None));
    assert!(matches!(end_attempt(&mut retry, &mut gate, &mut d, 0, 0, res, 0), Next::Nap(5)));
    assert_eq!((retry.attempts, retry.rl_hits), (0, 1));
    let mut retry = Retry { attempts: 0, rl_hits: 12 };
    assert!(gate.enter());
    let res = Err(SegErr::RateLimited(Some(400)));
    match end_attempt(&mut retry, &mut gate, &mut d, 0, 1, res, 0) {
        Next::Fail(e) => assert_eq!(e, "il server continua a rispondere 429 anche a 1 connessione"),
        other => panic!("{other:?}"),
    }
    let mut retry = Retry::new();
    assert!(gate.enter());
    let res = Err(SegErr::RateLimited(Some(400)));
    assert!(matches!(end_attempt(&mut retry, &mut gate, &mut d, 0, 1, res, 0), Next::Nap(30)));
}

#[test]
fn replies_are_judged() {
    assert!(judge_reply(206, &Field::Absent, true).is_none());
    assert!(matches!(judge_reply(200, &Field::Absent, true), Some(SegErr::Changed)));
    match judge_reply(200, &Field::Absent, false) {
        Some(SegErr::Other(e)) => assert_eq!(e, "range rifiutato dal server (status 200 OK)"),
        other => panic!("{other:?}"),
    }
    let after = |f: Field| match judge_reply(429, &f, true) {
        Some(SegErr::RateLimited(s)) => s,
        other => panic!("{other:?}"),
    };
    assert_eq!(after(Field::Text(" 17 ".to_string())), Some(17));
    assert_eq!(after(Field::Text("Wed, 21 Oct".to_string())), None);
    assert_eq!(after(Field::Opaque), None);
}

#[test]
fn streams_end_early_or_well() {
    let mut d = Download::new(0, Job::default(), 8, 0);
    d.segs = vec![Seg::new(0, 0, 0)];
    assert_eq!(begin_stream(&mut d, 500, None).unwrap(), "status 500 Internal Server Error");
    assert!(begin_stream(&mut d, 200, Some(2048)).is_none());
    assert_eq!(d.total, 2048);
    let mut written = 0;
    wrote_stream(&mut d, &mut written, 1024);
    assert_eq!((written, d.done, d.segs[0].done), (1024, 1024, 1024));
    assert_eq!(seal_stream(&mut d, written).unwrap(), "connessione chiusa in anticipo (1.0 KB su 2.0 KB)");
    assert_eq!(d.segs[0].flushed, 1024);
    assert!(seal_stream(&mut d, 2048).is_none());
}

#[test]
fn what_is_heard_decides() {
    let seg = Seg::new(100, 199, 0);
    let f = Fetch { pos: 150, since_flush: 0 };
    let why = |h: Heard| match next_step(&f, &seg, h) {
        Step::Abandon(e) => e,
        other => panic!("{other:?}"),
    };
    assert_eq!(why(Heard::Interrupted), "interrotto");
    assert_eq!(why(Heard::Stalled), "stallo: nessun dato per 30s, riconnetto");
    assert_eq!(why(Heard::Broken("x".to_string())), "stream interrotto: x");
    assert!(matches!(next_step(&f, &seg, Heard::Chunk(10)), Step::Write(10)));
    assert!(matches!(next_step(&f, &seg, Heard::Chunk(100)), Step::Write(50)));
    assert!(matches!(next_step(&Fetch { pos: 200, since_flush: 0 }, &seg, Heard::Chunk(1)), Step::Seal));
    assert!(matches!(next_step(&f, &seg, Heard::Closed), Step::Seal));
    assert!(matches!(next_stream_step(Heard::Stalled), Step::Abandon(e) if e == "stallo: nessun dato per 30s"));
}

#[test]
fn a_short_answer_is_an_error() {
    let mut d = Download::new(0, Job::default(), 8, 0);
    d.segs = vec![Seg { done: 10, ..Seg::new(0, 99, 0) }];
    match seal(&mut d, 0) {
        Err(SegErr::Other(e)) => assert_eq!(e, "connessione chiusa a metà segmento, riprendo"),
        other => panic!("{other:?}"),
    }
    assert_eq!(d.segs[0].flushed, 10);
    d.segs[0].done = 100;
    assert!(seal(&mut d, 0).is_ok());
    assert!(begin_fetch(&d, 0).is_none());
    d.segs[0].done = 40;
    d.validator = Some("\"v\"\n".to_string());
    let (_, q) = begin_fetch(&d, 0).unwrap();
    assert_eq!((q.start, q.range.as_str(), q.if_range), (40, "bytes=40-99", None));
}
