//! What is kept beside a part file, so that a download survives the program.

use crate::download::{Download, Job, Status};
use crate::names::{self, FilePath};
use crate::num;
use crate::probe;
use crate::segment::{self, Seg};
use crate::text;
use vstd::prelude::*;
use vstd::string::*;

verus! {

/// One range as it is kept.
#[derive(Debug, Clone, Copy, PartialEq, Eq, Structural)]
pub struct SegSave {
    pub start: u64,
    pub end: u64,
    /// Bytes that are safe on disk: where the range goes on.
    pub done: u64,
}

/// The state of a download as it is kept.
#[derive(Debug)]
pub struct Sidecar {
    pub job: Job,
    pub total: u64,
    pub resumable: bool,
    pub validator: Option<String>,
    pub segments: Vec<SegSave>,
}

/// One range as it is kept: what was flushed, and never more than the range
/// spans.
pub open spec fn saved(s: Seg) -> SegSave {
    SegSave {
        start: s.start,
        end: s.end,
        done: num::min_of(s.flushed as int, s.span()) as u64,
    }
}

/// All ranges as they are kept.
pub open spec fn all_saved(segs: Seq<Seg>) -> Seq<SegSave> {
    segs.map_values(|s: Seg| saved(s))
}

/// Takes down the state of a download. Only bytes that were flushed count:
/// nothing else survives a crash.
pub fn snapshot(dl: &Download) -> (r: Sidecar)
    requires
        segment::all_countable(dl.segs@),
    ensures
        r.job == dl.job,
        r.total == dl.total,
        r.resumable == dl.resumable,
        r.validator == dl.validator,
        r.segments@ == all_saved(dl.segs@),
{
    let mut segments: Vec<SegSave> = Vec::new();
    let mut i: usize = 0;
    while i < dl.segs.len()
        invariant
            segment::all_countable(dl.segs@),
            i <= dl.segs@.len(),
            segments@ == all_saved(dl.segs@).take(i as int),
        decreases dl.segs@.len() - i,
    {
        let s: Seg = dl.segs[i];
        assert(dl.segs@[i as int].span() <= u64::MAX);
        let len: u64 = s.len();
        let done: u64 = if s.flushed <= len { s.flushed } else { len };
        segments.push(SegSave { start: s.start, end: s.end, done });
        i = i + 1;
        assert(all_saved(dl.segs@).take(i as int).drop_last() =~= all_saved(dl.segs@).take(i - 1));
    }
    assert(all_saved(dl.segs@).take(i as int) =~= all_saved(dl.segs@));
    Sidecar {
        job: dl.job.clone(),
        total: dl.total,
        resumable: dl.resumable,
        validator: match &dl.validator {
            Some(v) => Some(v.clone()),
            None => None,
        },
        segments,
    }
}

/// One range as it goes on: everything that was kept is on disk. A download
/// that cannot go on in the middle starts again.
pub open spec fn revived(s: SegSave, resumable: bool) -> Seg {
    let done = if resumable { s.done } else { 0 };
    Seg { start: s.start, end: s.end, done, flushed: done }
}

/// All ranges as they go on.
pub open spec fn all_revived(saves: Seq<SegSave>, resumable: bool) -> Seq<Seg> {
    saves.map_values(|s: SegSave| revived(s, resumable))
}

/// Brings the ranges of a sidecar back.
pub fn revive(sc: &Sidecar) -> (r: Vec<Seg>)
    ensures
        r@ == all_revived(sc.segments@, sc.resumable),
{
    let mut r: Vec<Seg> = Vec::new();
    let mut i: usize = 0;
    let ghost all = all_revived(sc.segments@, sc.resumable);
    while i < sc.segments.len()
        invariant
            all == all_revived(sc.segments@, sc.resumable),
            i <= sc.segments@.len(),
            r@ == all.take(i as int),
        decreases sc.segments@.len() - i,
    {
        let s: SegSave = sc.segments[i];
        r.push(Seg::new(s.start, s.end, if sc.resumable { s.done } else { 0 }));
        i = i + 1;
        assert(all.take(i as int).drop_last() =~= all.take(i - 1));
    }
    assert(all.take(i as int) =~= all);
    r
}

/// Brings a download back from what was kept of it, paused. `base` is a new
/// download for the sidecar's job. The ranges must not count more bytes than a
/// `u64` holds: see [`revive`] and [`segment::sum_flushed`].
pub fn restore(base: Download, sc: Sidecar, path: FilePath) -> (r: Download)
    requires
        segment::total_flushed(all_revived(sc.segments@, sc.resumable)) <= u64::MAX,
    ensures
        r == (Download {
            name: r.name,
            path,
            total: sc.total,
            done: r.done,
            segs: r.segs,
            resumable: sc.resumable,
            status: Status::Paused,
            validator: sc.validator,
            ..base
        }),
        r.name@ == path@.shown(),
        r.done == segment::total_flushed(all_revived(sc.segments@, sc.resumable)),
        r.segs@ == all_revived(sc.segments@, sc.resumable),
{
    let segs = revive(&sc);
    let done: u64 = match segment::sum_flushed(&segs) {
        Some(n) => n,
        None => 0,
    };
    let mut dl = base;
    dl.name = path.shown_name();
    dl.path = path;
    dl.total = sc.total;
    dl.resumable = sc.resumable;
    dl.validator = sc.validator;
    dl.done = done;
    dl.segs = segs;
    dl.status = Status::Paused;
    dl
}

/// What was kept comes back: every range of a download that can go on starts
/// again at exactly its last flushed byte, and owns the same bytes as before.
/// Only a range that flushed more than it spans, because it was cut shorter
/// meanwhile, starts again at its end.
pub proof fn what_was_kept_comes_back(segs: Seq<Seg>)
    requires
        segment::all_countable(segs),
    ensures
        all_revived(all_saved(segs), true).len() == segs.len(),
        forall|i: int|
            0 <= i < segs.len() ==> (#[trigger] all_revived(all_saved(segs), true)[i]) == (Seg {
                done: num::min_of(segs[i].flushed as int, segs[i].span()) as u64,
                flushed: num::min_of(segs[i].flushed as int, segs[i].span()) as u64,
                ..segs[i]
            }),
        segment::all_well_formed(segs) ==> all_revived(all_saved(segs), true) == segment::rewound(
            segs,
        ) && segment::all_well_formed(all_revived(all_saved(segs), true)),
        forall|total: int|
            #[trigger] segment::tiles(segs, total) ==> segment::tiles(
                all_revived(all_saved(segs), true),
                total,
            ),
        segment::total_span(all_revived(all_saved(segs), true)) == segment::total_span(segs),
{
    let back = all_revived(all_saved(segs), true);
    assert forall|i: int| 0 <= i < segs.len() implies #[trigger] back[i] == (Seg {
        done: num::min_of(segs[i].flushed as int, segs[i].span()) as u64,
        flushed: num::min_of(segs[i].flushed as int, segs[i].span()) as u64,
        ..segs[i]
    }) by {
        assert(all_saved(segs)[i] == saved(segs[i]));
        assert(back[i] == revived(all_saved(segs)[i], true));
    }
    if segment::all_well_formed(segs) {
        assert forall|i: int| 0 <= i < segs.len() implies #[trigger] back[i] == segment::rewound(
            segs,
        )[i] && back[i].well_formed() by {
            assert(segs[i].well_formed());
            assert(segs[i].span() <= u64::MAX);
        }
        assert(back =~= segment::rewound(segs));
    }
    assert forall|total: int| #[trigger] segment::tiles(segs, total) implies segment::tiles(
        back,
        total,
    ) by {
        segment::counters_do_not_matter(segs, back, total);
    }
    lemma_same_span(segs, back);
}

proof fn lemma_same_span(a: Seq<Seg>, b: Seq<Seg>)
    requires
        a.len() == b.len(),
        forall|i: int|
            0 <= i < a.len() ==> (#[trigger] a[i]).start == (#[trigger] b[i]).start && a[i].end
                == b[i].end,
    ensures
        segment::total_span(a) == segment::total_span(b),
    decreases a.len(),
{
    if a.len() > 0 {
        assert(a[a.len() - 1].start == b[a.len() - 1].start);
        lemma_same_span(a.drop_last(), b.drop_last());
    }
}

/// The part file and the file that a sidecar's name speaks of: `None` if it is
/// not the name of a sidecar.
pub open spec fn sidecar_target(name: Seq<char>) -> Option<(Seq<char>, Seq<char>)> {
    match text::before_suffix(name, ".mdm.json"@) {
        Some(part) => match text::before_suffix(part, ".part"@) {
            Some(file) => Some((part, file)),
            None => None,
        },
        None => None,
    }
}

/// Reads the name of a sidecar: the names of its part file and of the file.
pub fn parse_sidecar_name(name: &str) -> (r: Option<(String, String)>)
    ensures
        match r {
            Some((part, file)) => sidecar_target(name@) == Some((part@, file@)),
            None => sidecar_target(name@) is None,
        },
{
    let v = text::to_chars(name);
    match text::strip_suffix(&v, ".mdm.json") {
        Some(part) => match text::strip_suffix(&part, ".part") {
            Some(file) => Some((text::from_chars(&part), text::from_chars(&file))),
            None => None,
        },
        None => None,
    }
}

/// The sidecar that is written for a file is found again as that file's.
pub proof fn sidecars_are_found_again(path: names::PathView)
    ensures
        sidecar_target(names::sidecar_of(names::part_of(path)).name) == Some(
            (names::part_of(path).name, path.name + path.tail),
        ),
{
    names::part_and_sidecar_lead_back(path);
}

/// What to do about a file found in the download folder.
#[derive(Debug, Clone, Copy, PartialEq, Eq, Structural)]
pub enum Orphan {
    /// Nothing: it is no part file, or it has its sidecar.
    Ignore,
    /// Delete it: an empty part file without a sidecar is surely rubbish.
    Remove,
    /// Report it: it holds bytes, but nobody can go on with it.
    Report,
}

/// Decides about a file found in the download folder, given whether its
/// sidecar exists and its size, if that can be had.
pub fn judge_orphan(name: &str, has_sidecar: bool, size: Option<u64>) -> (r: Orphan)
    ensures
        r == if name@.skip(names::ext_start(name@)) != ".part"@ || has_sidecar {
            Orphan::Ignore
        } else {
            match size {
                Some(n) => if n == 0 { Orphan::Remove } else { Orphan::Report },
                None => Orphan::Ignore,
            }
        },
{
    let ext = names::extension(name);
    if !text::same(ext.as_str(), ".part") || has_sidecar {
        return Orphan::Ignore;
    }
    match size {
        Some(n) => if n == 0 { Orphan::Remove } else { Orphan::Report },
        None => Orphan::Ignore,
    }
}

/// What is said of part files that nobody can go on with: nothing if there
/// are none.
pub fn orphan_report(n: u64) -> (r: Option<String>)
    ensures
        match r {
            Some(s) => n > 0 && s@ == text::decimal(n as nat)
                + " file .part senza stato in Downloads: non riprendibili, puoi cancellarli"@,
            None => n == 0,
        },
{
    if n == 0 {
        return None;
    }
    Some(
        text::join(
            text::number(n).as_str(),
            " file .part senza stato in Downloads: non riprendibili, puoi cancellarli",
        ),
    )
}

/// What is kept of a range is where it lies and what of it is on disk, and
/// never more than it spans. A download that cannot go on in the middle starts
/// its ranges again from nothing.
pub proof fn only_bytes_on_disk_are_kept(s: Seg, k: SegSave)
    requires
        s.start <= s.end,
        s.end - s.start < u64::MAX,
    ensures
        saved(s).start == s.start && saved(s).end == s.end,
        saved(s).done <= s.end - s.start + 1,
        s.flushed <= s.end - s.start + 1 ==> saved(s).done == s.flushed,
        s.flushed > s.end - s.start + 1 ==> saved(s).done == s.end - s.start + 1,
        revived(k, true).done == k.done && revived(k, true).flushed == k.done,
        revived(k, false).done == 0 && revived(k, false).flushed == 0,
        revived(k, true).start == k.start && revived(k, true).end == k.end,
        revived(k, false).start == k.start && revived(k, false).end == k.end,
{
}

/// Ranges are kept, and go on, one by one and in their order.
pub proof fn ranges_are_kept_one_by_one(
    segs: Seq<Seg>,
    saves: Seq<SegSave>,
    resumable: bool,
    i: int,
)
    ensures
        all_saved(segs).len() == segs.len(),
        0 <= i < segs.len() ==> all_saved(segs)[i] == saved(segs[i]),
        all_revived(saves, resumable).len() == saves.len(),
        0 <= i < saves.len() ==> all_revived(saves, resumable)[i] == revived(saves[i], resumable),
{
}

/// Only a name that ends as those of sidecars do is taken for one, and it
/// speaks of the file whose name stands before that.
pub proof fn only_sidecars_are_taken_for_them(name: Seq<char>, file: Seq<char>)
    ensures
        sidecar_target(file + ".part"@ + ".mdm.json"@) == Some((file + ".part"@, file)),
        sidecar_target(name) matches Some((part, f)) ==> name == part + ".mdm.json"@ && part == f
            + ".part"@,
{
    text::beginnings_and_ends_come_off(".mdm.json"@, file + ".part"@, name);
    text::beginnings_and_ends_come_off(".part"@, file, name);
    if let Some(part) = text::before_suffix(name, ".mdm.json"@) {
        text::beginnings_and_ends_come_off(".part"@, file, part);
    }
}

} // verus!
