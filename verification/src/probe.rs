//! The first answer of a server: whether the file can be had, how large it
//! is, whether it can be had in pieces, and under which name.

use crate::download::{Download, Job, Status};
use crate::foreign;
use crate::names::{self, FilePath};
use crate::num;
use crate::segment::{self, Seg, MIN_SEGMENT};
use crate::text::{self, Class};
use crate::ui;
use crate::url;
use vstd::prelude::*;
use vstd::string::*;

verus! {

/// A header of an answer.
#[derive(Debug)]
pub enum Field {
    /// The answer does not have it.
    Absent,
    /// Its value is not plain text.
    Opaque,
    Text(String),
}

impl Field {
    /// The header's text, if it has one.
    pub open spec fn value(self) -> Option<Seq<char>> {
        match self {
            Field::Text(s) => Some(s@),
            _ => None,
        }
    }
}

/// A status code as people read it: the code and its standard phrase.
pub open spec fn status_text(code: u16) -> Seq<char> {
    text::decimal(code as nat) + " "@ + match foreign::reason_phrase(code) {
        Some(r) => r,
        None => "<unknown status code>"@,
    }
}

/// A status code as people read it.
pub fn show_status(code: u16) -> (r: String)
    ensures
        r@ == status_text(code),
{
    let mut r: String = text::number(code as u64);
    r.append(" ");
    match foreign::canonical_reason(code) {
        Some(p) => {
            r.append(p.as_str());
        },
        None => {
            r.append("<unknown status code>");
        },
    }
    r
}

/// What the probe brought back. The probe asks for the first byte alone: a
/// server that takes ranges answers 206 and states the size of the whole; one
/// that does not answers 200 and sends the whole.
#[derive(Debug)]
pub struct Probe {
    pub status: u16,
    pub disposition: Field,
    pub content_range: Field,
    pub content_length: Field,
    pub etag: Field,
    pub last_modified: Field,
}

/// How often a probe is repeated that the server was too busy for.
pub const PROBE_RETRIES: u64 = 2;

/// How long to wait, in milliseconds, before the probe is made for the
/// `attempt`-th time again; `None` if it is not to be.
pub fn probe_again(status: u16, attempt: u64) -> (r: Option<u64>)
    ensures
        r == if status == 429 && 1 <= attempt <= PROBE_RETRIES {
            Some((2500 * attempt) as u64)
        } else {
            None
        },
{
    if status == 429 && 1 <= attempt && attempt <= PROBE_RETRIES {
        Some(2500 * attempt)
    } else {
        None
    }
}

/// The answer says that the file can be had.
pub open spec fn is_success(status: u16) -> bool {
    200 <= status < 300
}

/// The answer says that asking again is of no use: the link is dead, or wants
/// something else. Not so a timeout, nor a server that is too busy.
pub open spec fn is_final(status: u16) -> bool {
    400 <= status < 500 && status != 408 && status != 429
}

/// Judges the probe's status: the error, if the file cannot be had. An answer
/// that makes another try pointless is fatal to the download.
pub fn judge_probe(dl: &mut Download, status: u16) -> (r: Option<String>)
    ensures
        r is None <==> is_success(status),
        r matches Some(e) ==> e@ == "status "@ + status_text(status),
        if is_final(status) {
            &&& *final(dl) == (Download {
                fatal: true,
                fatal_msg: final(dl).fatal_msg,
                ..*old(dl)
            })
            &&& final(dl).fatal_msg@ == "il server rifiuta il download (status "@ + status_text(
                status,
            ) + ")"@
        } else {
            *final(dl) == *old(dl)
        },
{
    if 200 <= status && status < 300 {
        return None;
    }
    let st = show_status(status);
    if 400 <= status && status < 500 && status != 408 && status != 429 {
        let mut msg: String = text::join("il server rifiuta il download (status ", st.as_str());
        msg.append(")");
        dl.set_fatal(msg.as_str());
    }
    Some(text::join("status ", st.as_str()))
}

/// What a probe says of the file.
#[derive(Debug)]
pub struct Remote {
    /// The server takes ranges.
    pub ranges: bool,
    /// The size of the file, if it is known.
    pub len: Option<u64>,
    /// The name that the server proposes.
    pub name: Option<String>,
    /// What identifies this version of the file.
    pub validator: Option<String>,
}

/// The text of the header that the validator is taken from: `ETag` where there
/// is one, even if it cannot be read, and `Last-Modified` otherwise.
pub open spec fn validator_of(p: Probe) -> Option<Seq<char>> {
    if p.etag is Absent { p.last_modified.value() } else { p.etag.value() }
}

/// The size of the file: the total of the range where the server takes
/// ranges, the length of the answer where it does not.
pub open spec fn length_of(p: Probe) -> Option<nat> {
    if p.status == 206 {
        match p.content_range.value() {
            Some(v) => url::range_total(v),
            None => None,
        }
    } else {
        match p.content_length.value() {
            Some(v) => match text::parsed(v, u64::MAX as nat) {
                Some(n) => if n > 0 { Some(n) } else { None },
                None => None,
            },
            None => None,
        }
    }
}

/// The name that the server proposes.
pub open spec fn name_of(p: Probe) -> Option<Seq<char>> {
    match p.disposition.value() {
        Some(v) => url::disposition_name(v),
        None => None,
    }
}

/// The view of an optional text.
pub open spec fn opt_view(s: Option<String>) -> Option<Seq<char>> {
    match s {
        Some(t) => Some(t@),
        None => None,
    }
}

/// A number that may not be there, as a natural number.
pub open spec fn opt_nat(n: Option<u64>) -> Option<nat> {
    match n {
        Some(x) => Some(x as nat),
        None => None,
    }
}

/// Whether the name in the probe's `Content-Disposition`, if it has one, can
/// be decoded.
pub fn is_readable(p: &Probe) -> (r: bool)
    ensures
        r == match p.disposition.value() {
            Some(v) => url::disposition_decodable(v),
            None => true,
        },
{
    match &p.disposition {
        Field::Text(s) => url::is_disposition_decodable(s.as_str()),
        _ => true,
    }
}

/// Reads the headers of a probe.
pub fn read_probe(p: &Probe) -> (r: Remote)
    requires
        p.disposition.value() matches Some(v) ==> url::disposition_decodable(v),
    ensures
        r.ranges == (p.status == 206),
        opt_nat(r.len) == length_of(*p),
        r.len matches Some(n) ==> n > 0,
        opt_view(r.name) == name_of(*p),
        opt_view(r.validator) == validator_of(*p),
{
    let name = match &p.disposition {
        Field::Text(s) => url::filename_from_disposition(s.as_str()),
        _ => None,
    };
    let ranges = p.status == 206;
    let len = if ranges {
        match &p.content_range {
            Field::Text(s) => url::content_range_total(s.as_str()),
            _ => None,
        }
    } else {
        match &p.content_length {
            Field::Text(s) => match text::parse_u64(&text::to_chars(s.as_str())) {
                Some(n) => if n > 0 { Some(n) } else { None },
                None => None,
            },
            _ => None,
        }
    };
    let validator = match &p.etag {
        Field::Absent => match &p.last_modified {
            Field::Text(s) => Some(s.clone()),
            _ => None,
        },
        Field::Text(s) => Some(s.clone()),
        Field::Opaque => None,
    };
    Remote { ranges, len, name, validator }
}

/// The name to save a new download under, before it is made fit: the one that
/// was asked for, else the server's, else the link's.
pub open spec fn raw_name(job: Job, proposed: Option<Seq<char>>) -> Seq<char> {
    if job.filename@.len() > 0 {
        job.filename@
    } else {
        match proposed {
            Some(n) => n,
            None => url::url_name(job.url@),
        }
    }
}

/// Chooses the name to save a new download under.
pub fn choose_name(job: &Job, proposed: Option<String>) -> (r: String)
    requires
        job.filename@.len() == 0 && proposed is None ==> url::decodable(url::last_segment(job.url@)),
    ensures
        r@ == names::sanitized(raw_name(*job, opt_view(proposed))),
{
    if job.filename.as_str().unicode_len() > 0 {
        return names::sanitize_filename(job.filename.as_str());
    }
    match proposed {
        Some(n) => names::sanitize_filename(n.as_str()),
        None => names::sanitize_filename(url::filename_from_url(job.url.as_str()).as_str()),
    }
}

/// How a download is to be carried out.
#[derive(Debug, Clone, Copy, PartialEq, Eq, Structural)]
pub enum Plan {
    /// In pieces, over several connections.
    Segmented,
    /// In one go. `reuse` says that the probe's own answer is the file.
    Single { reuse: bool },
}

/// The ranges that a download starts with: the parts of the file where it
/// comes in pieces, one range otherwise.
pub open spec fn first_ranges(remote: Remote, max_conc: u64) -> Seq<Seg> {
    match remote.len {
        Some(len) if remote.ranges => segment::fresh(
            Seq::new(
                segment::parts(len as int, max_conc as int, MIN_SEGMENT as int) as nat,
                |i: int|
                    segment::part_bounds(
                        len as int,
                        segment::parts(len as int, max_conc as int, MIN_SEGMENT as int),
                        i,
                    ),
            ),
        ),
        Some(len) => seq![Seg { start: 0, end: (len - 1) as u64, done: 0, flushed: 0 }],
        None => seq![Seg { start: 0, end: 0, done: 0, flushed: 0 }],
    }
}

/// Sets a download up to be carried out from its first byte: the place of its
/// file, its size, its ranges, and how it is to be fetched. It is enough that
/// the server takes ranges and the size is known: even a small file, in a
/// single piece, can then go on exactly where it stopped.
pub fn start_transfer(dl: &mut Download, path: FilePath, remote: Remote, max_conc: u64) -> (r: Plan)
    requires
        path@.names_a_file(),
        max_conc >= 1,
        remote.len matches Some(n) ==> n > 0,
    ensures
        *final(dl) == (Download {
            name: final(dl).name,
            path,
            total: match remote.len {
                Some(n) => n,
                None => 0,
            },
            done: 0,
            segs: final(dl).segs,
            resumable: remote.ranges && remote.len is Some,
            status: Status::Active,
            validator: remote.validator,
            ..*old(dl)
        }),
        final(dl).name@ == path@.name,
        final(dl).segs@ == first_ranges(remote, max_conc),
        r == if remote.ranges && remote.len is Some {
            Plan::Segmented
        } else {
            Plan::Single { reuse: !remote.ranges }
        },
{
    dl.validator = remote.validator;
    dl.name = path.name.clone();
    dl.path = path;
    dl.total = match remote.len {
        Some(n) => n,
        None => 0,
    };
    dl.done = 0;
    dl.status = Status::Active;
    let segmented = remote.ranges && remote.len.is_some();
    dl.resumable = segmented;
    let mut segs: Vec<Seg> = Vec::new();
    if segmented {
        let len: u64 = remote.len.unwrap();
        let bounds = segment::split_segments(len, max_conc, MIN_SEGMENT);
        let mut i: usize = 0;
        while i < bounds.len()
            invariant
                i <= bounds@.len(),
                segs@ == segment::fresh(bounds@).take(i as int),
            decreases bounds@.len() - i,
        {
            segs.push(Seg::new(bounds[i].0, bounds[i].1, 0));
            i = i + 1;
            assert(segment::fresh(bounds@).take(i as int).drop_last() =~= segment::fresh(
                bounds@,
            ).take(i - 1));
        }
        assert(segs@ =~= first_ranges(remote, max_conc));
    } else {
        let end: u64 = match remote.len {
            Some(n) => n - 1,
            None => 0,
        };
        segs.push(Seg::new(0, end, 0));
        assert(segs@ =~= first_ranges(remote, max_conc));
    }
    dl.segs = segs;
    if segmented {
        Plan::Segmented
    } else {
        Plan::Single { reuse: !remote.ranges }
    }
}

/// A download that starts in pieces owns every byte of the file exactly once.
pub proof fn first_ranges_tile_the_file(remote: Remote, max_conc: u64)
    requires
        max_conc >= 1,
        remote.ranges,
        remote.len matches Some(n) && n > 0,
    ensures
        segment::tiles(first_ranges(remote, max_conc), remote.len->0 as int),
        segment::all_well_formed(first_ranges(remote, max_conc)),
        segment::total_span(first_ranges(remote, max_conc)) == remote.len->0,
{
    let len = remote.len->0;
    let n = segment::parts(len as int, max_conc as int, MIN_SEGMENT as int);
    let bounds = Seq::new(n as nat, |i: int| segment::part_bounds(len as int, n, i));
    segment::split_tiles_the_file(len, max_conc, MIN_SEGMENT, bounds);
    assert(segment::fresh(bounds) =~= first_ranges(remote, max_conc));
}

/// A refused link is told apart from a busy server: where the answer is final
/// the download fails for good, and where it is not another try may follow.
pub proof fn refusals_are_final_unless_the_server_is_busy(status: u16)
    ensures
        status == 404 || status == 403 || status == 410 ==> is_final(status),
        is_final(status) ==> !is_success(status),
        500 <= status < 600 ==> !is_final(status) && !is_success(status),
        !is_final(408) && !is_final(429),
{
}

/// What the log says of how a download is carried out.
pub open spec fn plan_text(
    remote: Remote,
    pieces: nat,
    start_conc: u64,
    max_conc: u64,
) -> Seq<char> {
    match remote.len {
        Some(len) if remote.ranges => if pieces == 1 {
            "1 connessione ("@ + ui::bytes_text(len as int) + "), resume disponibile"@
        } else if start_conc < max_conc {
            text::decimal(pieces) + " segmenti, parto con "@ + text::decimal(start_conc as nat)
                + " connessioni (host già rate-limitato)"@
        } else {
            text::decimal(pieces) + " segmenti paralleli, "@ + ui::bytes_text(len as int)
        },
        _ => if remote.ranges {
            "stream singolo (file piccolo)"@
        } else {
            "stream singolo (il server non supporta Range)"@
        },
    }
}

/// What the log says of how a download is carried out: in how many pieces, and
/// whether it starts with fewer connections than allowed because its host once
/// refused more.
pub fn plan_line(remote: &Remote, pieces: u64, start_conc: u64, max_conc: u64) -> (r: String)
    ensures
        r@ == plan_text(*remote, pieces as nat, start_conc, max_conc),
{
    match remote.len {
        Some(len) => if remote.ranges {
            if pieces == 1 {
                let mut r: String = text::join("1 connessione (", ui::fmt_bytes(len).as_str());
                r.append("), resume disponibile");
                return r;
            }
            let mut r: String = text::number(pieces);
            if start_conc < max_conc {
                r.append(" segmenti, parto con ");
                r.append(text::number(start_conc).as_str());
                r.append(" connessioni (host già rate-limitato)");
            } else {
                r.append(" segmenti paralleli, ");
                r.append(ui::fmt_bytes(len).as_str());
            }
            return r;
        },
        None => {},
    }
    if remote.ranges {
        text::owned("stream singolo (file piccolo)")
    } else {
        text::owned("stream singolo (il server non supporta Range)")
    }
}

/// An answer says that the file can be had if its code is one of the two
/// hundreds. It is final if its code is one of the four hundreds, other than a
/// timeout or too many requests; no other is.
pub proof fn codes_are_told_by_their_hundreds(status: u16)
    ensures
        is_success(status) <==> status / 100 == 2,
        is_final(status) ==> status / 100 == 4,
        status / 100 == 4 && status != 408 && status != 429 ==> is_final(status),
        status == 408 || status == 429 ==> !is_final(status),
        PROBE_RETRIES == 2,
{
}

/// A code as people read it begins with its number and a blank, and ends with
/// its phrase if it has one.
pub proof fn codes_are_shown_with_their_phrases(code: u16)
    ensures
        foreign::reason_phrase(code) matches Some(r) ==> status_text(code) == text::decimal(
            code as nat,
        ) + " "@ + r,
        foreign::reason_phrase(code) is None ==> status_text(code) == text::decimal(code as nat)
            + " "@ + "<unknown status code>"@,
        text::before(status_text(code), Class::One(' ')) == text::decimal(code as nat),
{
    let d = text::decimal(code as nat);
    let rest = match foreign::reason_phrase(code) {
        Some(r) => r,
        None => "<unknown status code>"@,
    };
    reveal_strlit(" ");
    text::lemma_decimal(code as nat);
    assert forall|i: int| 0 <= i < d.len() implies !Class::One(' ').holds(#[trigger] d[i]) by {
        assert(text::is_digit(d[i]));
    }
    assert(status_text(code) =~= d.push(' ') + rest);
    text::texts_are_cut_at_the_first(d, ' ', rest, Class::One(' '));
}

/// The file's version is told by its tag, if the answer has one; by its date
/// only if it has no tag at all.
pub proof fn tags_go_before_dates(p: Probe)
    ensures
        p.etag matches Field::Text(t) ==> validator_of(p) == Some(t@),
        p.etag is Opaque ==> validator_of(p) is None,
        p.etag is Absent && !(p.last_modified is Text) ==> validator_of(p) is None,
        p.etag is Absent ==> (p.last_modified matches Field::Text(t) ==> validator_of(p) == Some(
            t@,
        )),
{
}

/// The size of the file is what stands behind the slash of the range where the
/// server takes ranges, and the length of the answer where it does not; never
/// nothing.
pub proof fn sizes_are_read(p: Probe, range: Seq<char>, n: u64, i: int)
    requires
        n > 0,
    ensures
        p.status == 206 ==> (p.content_range matches Field::Text(t) ==> t@ == range.push('/')
            + text::decimal(n as nat) ==> length_of(p) == Some(n as nat)),
        p.status == 206 && !(p.content_range is Text) ==> length_of(p) is None,
        p.status != 206 ==> (p.content_length matches Field::Text(t) ==> t@ == text::decimal(
            n as nat,
        ) ==> length_of(p) == Some(n as nat)),
        p.status != 206 && !(p.content_length is Text) ==> length_of(p) is None,
        length_of(p) != Some(0nat),
        p.status != 206 ==> (p.content_length matches Field::Text(t) ==> 0 <= i < t@.len()
            ==> !text::is_digit(t@[i]) && t@[i] != '+' ==> length_of(p) is None),
{
    if let Field::Text(t) = p.content_length {
        text::only_digits_are_read(t@, 0, u64::MAX as nat, i);
    }
    let d = text::decimal(n as nat);
    text::lemma_decimal(n as nat);
    text::number_reads_back(n as nat, u64::MAX as nat);
    assert forall|i: int| 0 <= i < d.len() implies d[i] != '/' by {
        assert(text::is_digit(d[i]));
    }
    text::texts_are_cut_after_the_last(range, '/', d);
    assert(text::is_digit(d[0]) && text::is_digit(d[d.len() - 1]));
    let none = Seq::<char>::empty();
    text::only_the_ends_are_trimmed(none, d, none, Class::White);
    assert(none + d + none =~= d);
}

/// The name that was asked for goes first, then the server's, then the link's.
pub proof fn names_are_chosen_in_order(job: Job, proposed: Option<Seq<char>>)
    ensures
        job.filename@.len() > 0 ==> raw_name(job, proposed) == job.filename@,
        job.filename@.len() == 0 ==> (proposed matches Some(n) ==> raw_name(job, proposed) == n),
        job.filename@.len() == 0 && proposed is None ==> raw_name(job, proposed) == url::url_name(
            job.url@,
        ),
{
}

/// A download starts with as many ranges as connections are allowed, if four
/// megabytes fall to each, and otherwise with as many as that is true of; with
/// one range if it cannot come in pieces. None has received anything.
pub proof fn downloads_start_with_enough_ranges(remote: Remote, max_conc: u64, i: int)
    requires
        max_conc >= 1,
        remote.len matches Some(n) ==> n > 0,
        0 <= i < first_ranges(remote, max_conc).len(),
    ensures
        ({
            let ranges = first_ranges(remote, max_conc);
            let n = ranges.len();
            let size = 4 * 1024 * 1024int;
            &&& ranges[i].done == 0 && ranges[i].flushed == 0
            &&& !remote.ranges || remote.len is None ==> n == 1 && ranges[0].start == 0
            &&& remote.len matches Some(len) ==> {
                &&& !remote.ranges ==> ranges[0].end == len - 1
                &&& remote.ranges ==> {
                    &&& 1 <= n <= max_conc
                    &&& len >= max_conc * size ==> n == max_conc
                    &&& n == 1 || n * size <= len
                    &&& n == max_conc || len < (n + 1) * size
                    &&& n > 1 ==> ranges[i].end - ranges[i].start + 1 >= size
                    &&& ranges[0].start == 0 && ranges[n - 1].end == len - 1
                }
            }
            &&& remote.len is None ==> ranges[0].end == 0
        }),
{
    if remote.ranges && remote.len is Some {
        let len = remote.len->0;
        segment::as_many_ranges_as_fit(len as int, max_conc as int, MIN_SEGMENT as int);
        segment::ranges_are_of_one_size(len, max_conc, MIN_SEGMENT, i);
        let n = segment::parts(len as int, max_conc as int, MIN_SEGMENT as int);
        let bounds = Seq::new(n as nat, |k: int| segment::part_bounds(len as int, n, k));
        segment::split_tiles_the_file(len, max_conc, MIN_SEGMENT, bounds);
        assert(segment::fresh(bounds) =~= first_ranges(remote, max_conc));
        segment::ranges_are_of_one_size(len, max_conc, MIN_SEGMENT, 0);
        segment::ranges_are_of_one_size(len, max_conc, MIN_SEGMENT, n - 1);
    }
}

/// The log says in how many pieces a file comes, as a number that comes first.
pub proof fn plans_say_how_many_pieces(
    remote: Remote,
    pieces: nat,
    start_conc: u64,
    max_conc: u64,
)
    requires
        remote.ranges,
        remote.len is Some,
    ensures
        text::before(plan_text(remote, pieces, start_conc, max_conc), Class::One(' '))
            == text::decimal(pieces),
{
    let d = text::decimal(pieces);
    let t = plan_text(remote, pieces, start_conc, max_conc);
    text::lemma_decimal(pieces);
    assert forall|i: int| 0 <= i < d.len() implies !Class::One(' ').holds(#[trigger] d[i]) by {
        assert(text::is_digit(d[i]));
    }
    reveal_strlit("1 connessione (");
    reveal_strlit(" segmenti, parto con ");
    reveal_strlit(" segmenti paralleli, ");
    assert(t.len() > d.len() && t[d.len() as int] == ' ');
    assert(t.take(d.len() as int) =~= d);
    assert(t =~= d.push(' ') + t.skip(d.len() as int + 1));
    text::texts_are_cut_at_the_first(d, ' ', t.skip(d.len() as int + 1), Class::One(' '));
}

/// What may not be there is taken as it is, or as nothing.
pub proof fn what_is_not_there_is_nothing(s: Option<String>, n: Option<u64>, f: Field, p: Probe)
    ensures
        s matches Some(t) ==> opt_view(s) == Some(t@),
        s is None ==> opt_view(s) is None,
        n matches Some(x) ==> opt_nat(n) == Some(x as nat),
        n is None ==> opt_nat(n) is None,
        f matches Field::Text(t) ==> f.value() == Some(t@),
        !(f is Text) ==> f.value() is None,
        p.disposition matches Field::Text(t) ==> name_of(p) == url::disposition_name(t@),
        !(p.disposition is Text) ==> name_of(p) is None,
{
}

/// A file that comes in one go is said to: because it is small where the
/// server takes ranges, and because it does not where it does not.
pub proof fn plans_say_why_a_file_comes_in_one_go(
    remote: Remote,
    pieces: nat,
    start_conc: u64,
    max_conc: u64,
)
    ensures
        ({
            let t = plan_text(remote, pieces, start_conc, max_conc);
            &&& !remote.ranges ==> t == "stream singolo (il server non supporta Range)"@
            &&& remote.ranges && remote.len is None ==> t == "stream singolo (file piccolo)"@
            &&& remote.ranges && remote.len is Some && pieces == 1 ==> t == "1 connessione ("@
                + ui::bytes_text(remote.len->0 as int) + "), resume disponibile"@
            &&& remote.ranges && remote.len is Some && pieces != 1 && start_conc < max_conc ==> t
                == text::decimal(pieces) + " segmenti, parto con "@ + text::decimal(
                start_conc as nat,
            ) + " connessioni (host già rate-limitato)"@
            &&& remote.ranges && remote.len is Some && pieces != 1 && start_conc >= max_conc ==> t
                == text::decimal(pieces) + " segmenti paralleli, "@ + ui::bytes_text(
                remote.len->0 as int,
            )
        }),
{
}

} // verus!
