//! Settings that survive a restart.
//!
//! Every value that the user can turn lives here. Sliders move values on
//! every frame, so an edit only schedules a save; the save itself happens a
//! moment after the last edit.

use crate::names::{self, FilePath};
use crate::num::{self, clamp, smaller};
use crate::text;
use vstd::prelude::*;
use vstd::string::*;

verus! {

/// No download ever uses more connections than this.
pub const MAX_CONNECTIONS_CAP: u64 = 16;

/// How long an edit waits for more edits before it is saved, in nanoseconds.
pub const SAVE_DEBOUNCE: u64 = 1_000_000_000;

/// How many connections each host put up with: a map from host to number.
#[derive(Debug)]
pub struct HostConc {
    entries: Vec<(String, u64)>,
}

/// The map that a list of pairs spells.
pub open spec fn map_of(e: Seq<(String, u64)>) -> Map<Seq<char>, u64>
    decreases e.len(),
{
    if e.len() == 0 {
        Map::empty()
    } else {
        map_of(e.drop_last()).insert(e.last().0@, e.last().1)
    }
}

/// No key occurs twice.
pub open spec fn distinct(e: Seq<(String, u64)>) -> bool {
    forall|i: int, j: int| 0 <= i < j < e.len() ==> (#[trigger] e[i]).0@ != (#[trigger] e[j]).0@
}

/// The map holds exactly the pairs of the list.
proof fn lemma_map_of(e: Seq<(String, u64)>)
    requires
        distinct(e),
    ensures
        forall|i: int|
            0 <= i < e.len() ==> map_of(e).contains_key((#[trigger] e[i]).0@) && map_of(e)[e[i].0@]
                == e[i].1,
        forall|k: Seq<char>| #[trigger]
            map_of(e).contains_key(k) ==> exists|i: int| 0 <= i < e.len() && (#[trigger] e[i]).0@ == k,
    decreases e.len(),
{
    if e.len() > 0 {
        let init = e.drop_last();
        assert(distinct(init)) by {
            assert forall|i: int, j: int| 0 <= i < j < init.len() implies (#[trigger] init[i]).0@
                != (#[trigger] init[j]).0@ by {
                assert(e[i].0@ != e[j].0@);
            }
        }
        lemma_map_of(init);
        let last = e.len() - 1;
        assert forall|i: int| 0 <= i < e.len() implies map_of(e).contains_key((#[trigger] e[i]).0@)
            && map_of(e)[e[i].0@] == e[i].1 by {
            if i < last {
                assert(init[i] == e[i]);
                assert(e[i].0@ != e[last].0@);
            }
        }
        assert forall|k: Seq<char>| #[trigger] map_of(e).contains_key(k) implies exists|i: int|
            0 <= i < e.len() && (#[trigger] e[i]).0@ == k by {
            if k != e[last].0@ {
                assert(map_of(init).contains_key(k));
                let i = choose|i: int| 0 <= i < init.len() && (#[trigger] init[i]).0@ == k;
                assert(e[i].0@ == k);
            } else {
                assert(e[last].0@ == k);
            }
        }
    }
}

/// The map has as many keys as the list has pairs.
proof fn lemma_map_len(e: Seq<(String, u64)>)
    requires
        distinct(e),
    ensures
        map_of(e).dom().finite(),
        map_of(e).dom().len() == e.len(),
    decreases e.len(),
{
    if e.len() > 0 {
        let init = e.drop_last();
        assert(distinct(init)) by {
            assert forall|i: int, j: int| 0 <= i < j < init.len() implies (#[trigger] init[i]).0@
                != (#[trigger] init[j]).0@ by {
                assert(e[i].0@ != e[j].0@);
            }
        }
        lemma_map_len(init);
        lemma_map_of(init);
        let k = e.last().0@;
        if map_of(init).contains_key(k) {
            let i = choose|i: int| 0 <= i < init.len() && (#[trigger] init[i]).0@ == k;
            assert(e[i].0@ != e[e.len() - 1].0@);
        }
        assert(map_of(e).dom() =~= map_of(init).dom().insert(k));
    } else {
        assert(map_of(e).dom() =~= Set::empty());
    }
}

impl View for HostConc {
    type V = Map<Seq<char>, u64>;

    closed spec fn view(&self) -> Map<Seq<char>, u64> {
        map_of(self.entries@)
    }
}

impl HostConc {
    /// No host is listed twice.
    pub closed spec fn well_formed(self) -> bool {
        distinct(self.entries@)
    }

    /// No host yet.
    pub fn new() -> (r: HostConc)
        ensures
            r.well_formed(),
            r@ == Map::<Seq<char>, u64>::empty(),
    {
        HostConc { entries: Vec::new() }
    }

    fn find(&self, host: &str) -> (r: Option<usize>)
        ensures
            match r {
                Some(i) => i < self.entries@.len() && self.entries@[i as int].0@ == host@,
                None => forall|i: int|
                    0 <= i < self.entries@.len() ==> (#[trigger] self.entries@[i]).0@ != host@,
            },
    {
        let mut i: usize = 0;
        while i < self.entries.len()
            invariant
                i <= self.entries@.len(),
                forall|j: int| 0 <= j < i ==> (#[trigger] self.entries@[j]).0@ != host@,
            decreases self.entries@.len() - i,
        {
            if text::same(self.entries[i].0.as_str(), host) {
                return Some(i);
            }
            i = i + 1;
        }
        None
    }

    /// How many hosts are remembered.
    pub fn len(&self) -> (r: usize)
        requires
            self.well_formed(),
        ensures
            r == self@.dom().len(),
            self@.dom().finite(),
    {
        proof {
            lemma_map_len(self.entries@);
        }
        self.entries.len()
    }

    /// The number remembered for a host.
    pub fn get(&self, host: &str) -> (r: Option<u64>)
        requires
            self.well_formed(),
        ensures
            match r {
                Some(n) => self@.contains_key(host@) && self@[host@] == n,
                None => !self@.contains_key(host@),
            },
    {
        proof {
            lemma_map_of(self.entries@);
        }
        match self.find(host) {
            Some(i) => Some(self.entries[i].1),
            None => None,
        }
    }

    /// Remembers a number for a host, in place of any other.
    pub fn insert(&mut self, host: String, n: u64)
        requires
            old(self).well_formed(),
        ensures
            final(self).well_formed(),
            final(self)@ == old(self)@.insert(host@, n),
    {
        let ghost before = self.entries@;
        match self.find(host.as_str()) {
            Some(i) => {
                self.entries.set(i, (host, n));
                proof {
                    let after = self.entries@;
                    assert forall|a: int, b: int| 0 <= a < b < after.len() implies (
                    #[trigger] after[a]).0@ != (#[trigger] after[b]).0@ by {
                        assert(before[a].0@ != before[b].0@);
                    }
                    lemma_map_of(before);
                    lemma_map_of(after);
                    assert forall|k: Seq<char>| #[trigger] map_of(after).contains_key(k) <==> map_of(
                        before,
                    ).insert(host@, n).contains_key(k) by {
                        if map_of(after).contains_key(k) {
                            let j = choose|j: int| 0 <= j < after.len() && (#[trigger] after[j]).0@
                                == k;
                            assert(before[j].0@ == k);
                        }
                        if map_of(before).contains_key(k) {
                            let j = choose|j: int|
                                0 <= j < before.len() && (#[trigger] before[j]).0@ == k;
                            assert(after[j].0@ == k);
                        }
                        assert(after[i as int].0@ == host@);
                    }
                    assert forall|k: Seq<char>| #[trigger] map_of(after).contains_key(k) implies map_of(
                        after,
                    )[k] == map_of(before).insert(host@, n)[k] by {
                        let j = choose|j: int| 0 <= j < after.len() && (#[trigger] after[j]).0@ == k;
                        assert(map_of(after)[after[j].0@] == after[j].1);
                        assert(map_of(before)[before[j].0@] == before[j].1);
                        if j != i {
                            assert(before[j].0@ != before[i as int].0@) by {
                                if j < i {
                                    assert(before[j].0@ != before[i as int].0@);
                                } else {
                                    assert(before[i as int].0@ != before[j].0@);
                                }
                            }
                        }
                    }
                    assert(map_of(after) =~= map_of(before).insert(host@, n));
                }
            },
            None => {
                self.entries.push((host, n));
                proof {
                    let after = self.entries@;
                    assert(after.drop_last() =~= before);
                    assert forall|a: int, b: int| 0 <= a < b < after.len() implies (
                    #[trigger] after[a]).0@ != (#[trigger] after[b]).0@ by {
                        assert(after[a] == before[a]);
                        if b < before.len() {
                            assert(before[a].0@ != before[b].0@);
                        }
                    }
                }
            },
        }
    }

    /// Forgets a host.
    pub fn remove(&mut self, host: &str)
        requires
            old(self).well_formed(),
        ensures
            final(self).well_formed(),
            final(self)@ == old(self)@.remove(host@),
    {
        let ghost before = self.entries@;
        proof {
            lemma_map_of(before);
        }
        match self.find(host) {
            Some(i) => {
                self.entries.remove(i);
                proof {
                    let after = self.entries@;
                    let at = i as int;
                    assert(after == before.remove(at));
                    assert forall|a: int, b: int| 0 <= a < b < after.len() implies (
                    #[trigger] after[a]).0@ != (#[trigger] after[b]).0@ by {
                        let x = if a < at { a } else { a + 1 };
                        let y = if b < at { b } else { b + 1 };
                        assert(before[x].0@ != before[y].0@);
                    }
                    lemma_map_of(after);
                    assert forall|k: Seq<char>| #[trigger] map_of(after).contains_key(k) <==> map_of(
                        before,
                    ).remove(host@).contains_key(k) by {
                        if map_of(after).contains_key(k) {
                            let j = choose|j: int| 0 <= j < after.len() && (#[trigger] after[j]).0@
                                == k;
                            let x = if j < at { j } else { j + 1 };
                            assert(before[x].0@ == k);
                            if x < at {
                                assert(before[x].0@ != before[at].0@);
                            } else {
                                assert(before[at].0@ != before[x].0@);
                            }
                        }
                        if map_of(before).contains_key(k) && k != host@ {
                            let j = choose|j: int|
                                0 <= j < before.len() && (#[trigger] before[j]).0@ == k;
                            let x = if j < at { j } else { j - 1 };
                            assert(after[x].0@ == k);
                        }
                    }
                    assert forall|k: Seq<char>| #[trigger] map_of(after).contains_key(k) implies map_of(
                        after,
                    )[k] == map_of(before).remove(host@)[k] by {
                        let j = choose|j: int| 0 <= j < after.len() && (#[trigger] after[j]).0@ == k;
                        let x = if j < at { j } else { j + 1 };
                        assert(map_of(after)[after[j].0@] == after[j].1);
                        assert(map_of(before)[before[x].0@] == before[x].1);
                    }
                    assert(map_of(after) =~= map_of(before).remove(host@));
                }
            },
            None => {
                assert(!map_of(before).contains_key(host@));
                assert(map_of(before) =~= map_of(before).remove(host@));
            },
        }
    }

    /// Forgets every host.
    pub fn clear(&mut self)
        ensures
            final(self).well_formed(),
            final(self)@ == Map::<Seq<char>, u64>::empty(),
    {
        self.entries.clear();
    }

    /// The hosts and their numbers, one pair each.
    pub fn entries(&self) -> (r: &Vec<(String, u64)>)
        requires
            self.well_formed(),
        ensures
            distinct(r@),
            map_of(r@) == self@,
    {
        &self.entries
    }
}

impl Clone for HostConc {
    fn clone(&self) -> (r: HostConc)
        ensures
            r@ == self@,
            self.well_formed() ==> r.well_formed(),
    {
        let mut entries: Vec<(String, u64)> = Vec::new();
        let mut i: usize = 0;
        while i < self.entries.len()
            invariant
                i <= self.entries@.len(),
                entries@ == self.entries@.take(i as int),
            decreases self.entries@.len() - i,
        {
            let pair = (self.entries[i].0.clone(), self.entries[i].1);
            assert(pair == self.entries@[i as int]);
            entries.push(pair);
            i = i + 1;
        }
        assert(self.entries@.take(i as int) =~= self.entries@);
        HostConc { entries }
    }
}

/// The settings.
#[derive(Debug)]
pub struct Config {
    /// Where files go; empty means the system's download folder.
    pub download_dir: String,
    /// Connections per download, `1..=MAX_CONNECTIONS_CAP`.
    pub max_connections: u64,
    /// Downloads that run at once; the others queue.
    pub max_concurrent_downloads: u64,
    /// Global bandwidth limit in kilobytes per second; zero means none.
    pub speed_limit_kbps: u64,
    /// Size from which the browser extension hands a download over.
    pub size_threshold_mb: u64,
    /// How often a failed download is retried by itself.
    pub auto_retry: u64,
    pub notify_on_complete: bool,
    pub clipboard_watch: bool,
    pub autostart: bool,
    /// Connections that each host put up with, learned from its refusals.
    pub host_conc: HostConc,
}

/// What a [`Config`] holds.
pub struct ConfigView {
    pub download_dir: Seq<char>,
    pub max_connections: u64,
    pub max_concurrent_downloads: u64,
    pub speed_limit_kbps: u64,
    pub size_threshold_mb: u64,
    pub auto_retry: u64,
    pub notify_on_complete: bool,
    pub clipboard_watch: bool,
    pub autostart: bool,
    pub host_conc: Map<Seq<char>, u64>,
}

impl View for Config {
    type V = ConfigView;

    open spec fn view(&self) -> ConfigView {
        ConfigView {
            download_dir: self.download_dir@,
            max_connections: self.max_connections,
            max_concurrent_downloads: self.max_concurrent_downloads,
            speed_limit_kbps: self.speed_limit_kbps,
            size_threshold_mb: self.size_threshold_mb,
            auto_retry: self.auto_retry,
            notify_on_complete: self.notify_on_complete,
            clipboard_watch: self.clipboard_watch,
            autostart: self.autostart,
            host_conc: self.host_conc@,
        }
    }
}

impl ConfigView {
    /// Every value with a range is in it.
    pub open spec fn in_range(self) -> bool {
        &&& 1 <= self.max_connections <= MAX_CONNECTIONS_CAP
        &&& 1 <= self.max_concurrent_downloads <= 20
        &&& 1 <= self.size_threshold_mb <= 100_000
        &&& self.auto_retry <= 10
    }

    /// Every value with a range moved into it.
    pub open spec fn clamped(self) -> ConfigView {
        ConfigView {
            max_connections: num::within(
                self.max_connections as int,
                1,
                MAX_CONNECTIONS_CAP as int,
            ) as u64,
            max_concurrent_downloads: num::within(
                self.max_concurrent_downloads as int,
                1,
                20,
            ) as u64,
            size_threshold_mb: num::within(self.size_threshold_mb as int, 1, 100_000) as u64,
            auto_retry: num::min_of(self.auto_retry as int, 10) as u64,
            ..self
        }
    }

    /// The settings of a first start.
    pub open spec fn initial() -> ConfigView {
        ConfigView {
            download_dir: Seq::empty(),
            max_connections: 8,
            max_concurrent_downloads: 3,
            speed_limit_kbps: 0,
            size_threshold_mb: 10,
            auto_retry: 3,
            notify_on_complete: true,
            clipboard_watch: false,
            autostart: false,
            host_conc: Map::empty(),
        }
    }
}

impl Default for Config {
    fn default() -> (r: Config)
        ensures
            r.well_formed(),
            r@ == ConfigView::initial(),
    {
        let r = Config {
            download_dir: String::new(),
            max_connections: 8,
            max_concurrent_downloads: 3,
            speed_limit_kbps: 0,
            size_threshold_mb: 10,
            auto_retry: 3,
            notify_on_complete: true,
            clipboard_watch: false,
            autostart: false,
            host_conc: HostConc::new(),
        };
        assert(r@.download_dir =~= Seq::empty());
        r
    }
}

impl Clone for Config {
    fn clone(&self) -> (r: Config)
        ensures
            r@ == self@,
            self.well_formed() ==> r.well_formed(),
    {
        Config {
            download_dir: self.download_dir.clone(),
            max_connections: self.max_connections,
            max_concurrent_downloads: self.max_concurrent_downloads,
            speed_limit_kbps: self.speed_limit_kbps,
            size_threshold_mb: self.size_threshold_mb,
            auto_retry: self.auto_retry,
            notify_on_complete: self.notify_on_complete,
            clipboard_watch: self.clipboard_watch,
            autostart: self.autostart,
            host_conc: self.host_conc.clone(),
        }
    }
}

impl Config {
    /// The list of hosts is well formed. The values may be out of range: see
    /// [`Config::clamp`].
    pub open spec fn well_formed(self) -> bool {
        self.host_conc.well_formed()
    }

    /// Moves every value into its range: a file edited by hand must not break
    /// anything.
    pub fn clamp(&mut self)
        requires
            old(self).well_formed(),
        ensures
            final(self).well_formed(),
            final(self)@ == old(self)@.clamped(),
    {
        self.max_connections = clamp(self.max_connections, 1, MAX_CONNECTIONS_CAP);
        self.max_concurrent_downloads = clamp(self.max_concurrent_downloads, 1, 20);
        self.size_threshold_mb = clamp(self.size_threshold_mb, 1, 100_000);
        self.auto_retry = smaller(self.auto_retry, 10);
    }
}

/// Clamping puts every value into its range, and changes none that already
/// was: to clamp twice is to clamp once.
pub proof fn clamping_settles(c: ConfigView)
    ensures
        c.clamped().in_range(),
        c.clamped().clamped() == c.clamped(),
        c.in_range() ==> c.clamped() == c,
        c.clamped().host_conc == c.host_conc,
        c.clamped().download_dir == c.download_dir,
{
}

/// Where the settings are kept.
pub fn path(data_dir: &str) -> (r: FilePath)
    ensures
        r@ == names::at(data_dir@, "config.json"@),
{
    FilePath::new(data_dir, "config.json")
}

/// Where the settings are written before they take their place: a crash in the
/// middle leaves the old ones.
pub fn temp_path(data_dir: &str) -> (r: FilePath)
    ensures
        r@ == names::at(data_dir@, "config.json.tmp"@),
{
    FilePath::new(data_dir, "config.json.tmp")
}

/// What the system's start-up entry is to say: the program's path in quotes,
/// or nothing, if it is not to start with the system.
pub fn set_autostart(on: bool, exe: &str) -> (r: Option<String>)
    ensures
        match r {
            Some(v) => on && v@ == seq!['"'] + exe@ + seq!['"'],
            None => !on,
        },
{
    if on {
        let mut v: String = String::new();
        v.push('"');
        v.append(exe);
        v.push('"');
        assert(v@ =~= seq!['"'] + exe@ + seq!['"']);
        Some(v)
    } else {
        None
    }
}

/// The settings in use, and when they are due to be saved.
#[derive(Debug)]
pub struct Store {
    inner: Config,
    dirty: Option<u64>,
    saving: bool,
}

impl Store {
    /// The settings.
    pub closed spec fn config(self) -> ConfigView {
        self.inner@
    }

    /// When the last edit was that is not saved yet.
    pub closed spec fn edited_at(self) -> Option<u64> {
        self.dirty
    }

    /// Whether a save is under way.
    pub closed spec fn is_saving(self) -> bool {
        self.saving
    }

    /// The settings are in range.
    pub closed spec fn well_formed(self) -> bool {
        &&& self.inner.well_formed()
        &&& self.inner@.in_range()
    }

    /// Settings in use are always in range.
    pub proof fn lemma_in_range(self)
        requires
            self.well_formed(),
        ensures
            self.config().in_range(),
    {
    }

    /// Starts with the settings that were read, or with the defaults if there
    /// are none. The second value says that there were none: they are then to
    /// be saved at once, so that the file exists.
    pub fn load(existing: Option<Config>) -> (r: (Store, bool))
        requires
            existing matches Some(c) ==> c.well_formed(),
        ensures
            r.0.well_formed(),
            r.0.config() == match existing {
                Some(c) => c@.clamped(),
                None => ConfigView::initial(),
            },
            r.0.edited_at() is None,
            !r.0.is_saving(),
            r.1 == existing is None,
    {
        let missing = existing.is_none();
        let mut cfg = match existing {
            Some(c) => c,
            None => Config::default(),
        };
        cfg.clamp();
        proof {
            clamping_settles(ConfigView::initial());
        }
        (Store { inner: cfg, dirty: None, saving: false }, missing)
    }

    /// A copy of the settings.
    pub fn get(&self) -> (r: Config)
        requires
            self.well_formed(),
        ensures
            r.well_formed(),
            r@ == self.config(),
    {
        self.inner.clone()
    }

    /// Changes the settings as `f` does, moves what it put out of range back,
    /// and schedules a save.
    pub fn edit<F: FnOnce(&mut Config)>(&mut self, f: F, now: u64)
        requires
            old(self).well_formed(),
            forall|c: &mut Config| #[trigger]
                c.well_formed() ==> call_requires(f, (c,)),
            forall|c: &mut Config|
                c.well_formed() && #[trigger] call_ensures(f, (c,), ()) ==> final(c).well_formed(),
        ensures
            final(self).well_formed(),
            exists|c: &mut Config| #[trigger]
                call_ensures(f, (c,), ()) && c@ == old(self).config() && final(self).config()
                    == final(c)@.clamped(),
            final(self).edited_at() == Some(now),
            final(self).is_saving() == old(self).is_saving(),
    {
        f(&mut self.inner);
        proof {
            clamping_settles(self.inner@);
        }
        self.inner.clamp();
        self.dirty = Some(now);
    }

    /// Saves if the last edit is old enough: see [`Store::save_now`].
    pub fn flush_due(&mut self, now: u64) -> (r: Option<Config>)
        requires
            old(self).well_formed(),
        ensures
            final(self).well_formed(),
            final(self).config() == old(self).config(),
            match old(self).edited_at() {
                Some(at) if num::max_of(now - at, 0) >= SAVE_DEBOUNCE => {
                    &&& final(self).edited_at() is None
                    &&& final(self).is_saving()
                    &&& r is Some <==> !old(self).is_saving()
                },
                _ => r is None && *final(self) == *old(self),
            },
            r matches Some(c) ==> c.well_formed() && c@ == old(self).config(),
    {
        match self.dirty {
            Some(at) => if now.saturating_sub(at) >= SAVE_DEBOUNCE {
                self.save_now()
            } else {
                None
            },
            None => None,
        }
    }

    /// What is to be written to disk now: the settings, or nothing if a save
    /// is already under way. Either way no save is due any more. Once they are
    /// written, [`Store::saved`] is to be called.
    pub fn save_now(&mut self) -> (r: Option<Config>)
        requires
            old(self).well_formed(),
        ensures
            final(self).well_formed(),
            final(self).config() == old(self).config(),
            final(self).edited_at() is None,
            final(self).is_saving(),
            r is Some <==> !old(self).is_saving(),
            r matches Some(c) ==> c.well_formed() && c@ == old(self).config(),
    {
        self.dirty = None;
        if self.saving {
            return None;
        }
        self.saving = true;
        Some(self.get())
    }

    /// The save that was under way has ended.
    pub fn saved(&mut self)
        requires
            old(self).well_formed(),
        ensures
            final(self).well_formed(),
            final(self).config() == old(self).config(),
            final(self).edited_at() == old(self).edited_at(),
            !final(self).is_saving(),
    {
        self.saving = false;
    }

    /// Whether an edit waits to be saved.
    pub fn is_dirty(&self) -> (r: bool)
        ensures
            r == self.edited_at() is Some,
    {
        self.dirty.is_some()
    }
}

impl Default for Store {
    /// The default settings, nothing to save.
    fn default() -> (r: Store)
        ensures
            r.well_formed(),
            r.config() == ConfigView::initial(),
            r.edited_at() is None,
            !r.is_saving(),
    {
        Store { inner: Config::default(), dirty: None, saving: false }
    }
}

/// The ranges of the settings: one to sixteen connections, one to twenty
/// downloads at once, one to a hundred thousand megabytes, and up to ten
/// retries. A value out of its range moves to the nearest bound; nothing else
/// changes.
pub proof fn values_move_to_the_nearest_bound(c: ConfigView)
    ensures
        ({
            let d = c.clamped();
            &&& c.max_connections < 1 ==> d.max_connections == 1
            &&& c.max_connections > 16 ==> d.max_connections == 16
            &&& 1 <= c.max_connections <= 16 ==> d.max_connections == c.max_connections
            &&& c.max_concurrent_downloads < 1 ==> d.max_concurrent_downloads == 1
            &&& c.max_concurrent_downloads > 20 ==> d.max_concurrent_downloads == 20
            &&& 1 <= c.max_concurrent_downloads <= 20 ==> d.max_concurrent_downloads
                == c.max_concurrent_downloads
            &&& c.size_threshold_mb < 1 ==> d.size_threshold_mb == 1
            &&& c.size_threshold_mb > 100_000 ==> d.size_threshold_mb == 100_000
            &&& 1 <= c.size_threshold_mb <= 100_000 ==> d.size_threshold_mb == c.size_threshold_mb
            &&& c.auto_retry > 10 ==> d.auto_retry == 10
            &&& c.auto_retry <= 10 ==> d.auto_retry == c.auto_retry
            &&& d.speed_limit_kbps == c.speed_limit_kbps
            &&& d.notify_on_complete == c.notify_on_complete
            &&& d.clipboard_watch == c.clipboard_watch
            &&& d.autostart == c.autostart
        }),
        c.in_range() <==> 1 <= c.max_connections <= 16 && 1 <= c.max_concurrent_downloads <= 20 && 1
            <= c.size_threshold_mb <= 100_000 && c.auto_retry <= 10,
        SAVE_DEBOUNCE == 1_000_000_000,
{
}

/// The settings of a first start: eight connections, three downloads at once,
/// no limit, ten megabytes, three retries, and notices on; no host is known.
pub proof fn first_settings_are_modest()
    ensures
        ({
            let c = ConfigView::initial();
            &&& c.in_range()
            &&& c.download_dir.len() == 0
            &&& c.max_connections == 8 && c.max_concurrent_downloads == 3
            &&& c.speed_limit_kbps == 0 && c.size_threshold_mb == 10 && c.auto_retry == 3
            &&& c.notify_on_complete && !c.clipboard_watch && !c.autostart
            &&& forall|h: Seq<char>| !c.host_conc.contains_key(h)
        }),
{
}

/// A list of pairs spells the map that has each key's last value, and no other
/// key.
pub proof fn the_last_pair_of_a_key_counts(e: Seq<(String, u64)>, pair: (String, u64), k: Seq<char>)
    ensures
        map_of(e.push(pair)).contains_key(pair.0@) && map_of(e.push(pair))[pair.0@] == pair.1,
        k != pair.0@ ==> map_of(e.push(pair)).contains_key(k) == map_of(e).contains_key(k)
            && map_of(e.push(pair))[k] == map_of(e)[k],
        !map_of(Seq::empty()).contains_key(k),
{
    assert(e.push(pair).drop_last() =~= e);
}

/// What settings hold is what their fields say, and no host is listed twice.
pub proof fn settings_are_what_they_say(c: Config, e: Seq<(String, u64)>, i: int, j: int)
    ensures
        c@.download_dir == c.download_dir@,
        c@.max_connections == c.max_connections,
        c@.max_concurrent_downloads == c.max_concurrent_downloads,
        c@.speed_limit_kbps == c.speed_limit_kbps,
        c@.size_threshold_mb == c.size_threshold_mb,
        c@.auto_retry == c.auto_retry,
        c@.notify_on_complete == c.notify_on_complete,
        c@.clipboard_watch == c.clipboard_watch,
        c@.autostart == c.autostart,
        c@.host_conc == c.host_conc@,
        distinct(e) && 0 <= i < e.len() && 0 <= j < e.len() && e[i].0@ == e[j].0@ ==> i == j,
{
    if distinct(e) && 0 <= i < e.len() && 0 <= j < e.len() {
        if i < j {
            assert(e[i].0@ != e[j].0@);
        } else if j < i {
            assert(e[j].0@ != e[i].0@);
        }
    }
}

} // verus!
