//! What the window shows, as text and pixels.

use crate::download::{Download, Status};
use crate::num;
use crate::segment::{self, Seg};
use crate::text;
use vstd::prelude::*;
use vstd::string::*;

verus! {

/// `n / d` to the nearest integer; halfway, to the even one.
pub open spec fn half_even(n: int, d: int) -> int {
    let q = n / d;
    let r = n % d;
    if 2 * r > d || 2 * r == d && q % 2 == 1 { q + 1 } else { q }
}

/// The distance between neighbouring double-precision numbers at `b`, where
/// it is at least one.
pub open spec fn spacing(b: int) -> int
    decreases b,
{
    if b < 0x20_0000_0000_0000 { 1 } else { 2 * spacing(b / 2) }
}

/// `b` as a double-precision number.
pub open spec fn as_double(b: int) -> int {
    half_even(b, spacing(b)) * spacing(b)
}

/// The unit that `b` bytes are shown in, as a power of 1024: up to three.
pub open spec fn unit_of(b: int) -> int {
    if b < 1024 { 0 } else if b < 1_048_576 { 1 } else if b < 1_073_741_824 { 2 } else { 3 }
}

/// 1024 to the power of `u`.
pub open spec fn unit_size(u: int) -> int {
    if u == 0 { 1 } else if u == 1 { 1024 } else if u == 2 { 1_048_576 } else { 1_073_741_824 }
}

/// The name of a unit.
pub open spec fn unit_name(u: int) -> Seq<char> {
    if u == 0 { "B"@ } else if u == 1 { "KB"@ } else if u == 2 { "MB"@ } else { "GB"@ }
}

/// A number of bytes for people: whole bytes below a kilobyte, otherwise with
/// one decimal in the largest unit that fits, gigabytes at most.
pub open spec fn bytes_text(b: int) -> Seq<char> {
    let u = unit_of(b);
    if u == 0 {
        text::decimal(b as nat) + " B"@
    } else {
        let tenths = half_even(as_double(b) * 10, unit_size(u));
        text::decimal((tenths / 10) as nat) + "."@ + text::decimal((tenths % 10) as nat) + " "@
            + unit_name(u)
    }
}

fn round_half_even(n: u128, d: u128) -> (r: u128)
    requires
        d > 0,
        n + d <= u128::MAX,
        d <= 0x1_0000_0000_0000,
    ensures
        r == half_even(n as int, d as int),
        r * d <= n + d,
{
    let q: u128 = n / d;
    let m: u128 = n % d;
    proof {
        assert(q * d + m == n && m < d) by (nonlinear_arith)
            requires
                d > 0,
                q == n / d,
                m == n % d,
        ;
        assert((q + 1) * d == q * d + d) by (nonlinear_arith);
        assert(q <= q * d) by (nonlinear_arith)
            requires
                d > 0,
                q >= 0,
        ;
    }
    if 2 * m > d || 2 * m == d && q % 2 == 1 { q + 1 } else { q }
}

fn double_spacing(b: u64) -> (r: u64)
    ensures
        r == spacing(b as int),
        1 <= r,
        b < 0x20_0000_0000_0000 ==> r == 1,
        b >= 0x20_0000_0000_0000 ==> r <= b / 0x8_0000_0000_0000,
    decreases b,
{
    if b < 0x20_0000_0000_0000 {
        1
    } else {
        2 * double_spacing(b / 2)
    }
}

/// A number of bytes for people.
pub fn fmt_bytes(b: u64) -> (r: String)
    ensures
        r@ == bytes_text(b as int),
{
    if b < 1024 {
        return text::join(text::number(b).as_str(), " B");
    }
    let ulp: u64 = double_spacing(b);
    let scaled: u128 = round_half_even(b as u128, ulp as u128);
    let v: u128 = scaled * ulp as u128;
    assert(v == as_double(b as int));
    let (unit, name): (u128, &str) = if b < 1024 * 1024 {
        (1024, "KB")
    } else if b < 1024 * 1024 * 1024 {
        (1024 * 1024, "MB")
    } else {
        (1024 * 1024 * 1024, "GB")
    };
    let tenths: u128 = round_half_even(v * 10, unit);
    proof {
        assert(tenths <= u64::MAX) by (nonlinear_arith)
            requires
                tenths * unit <= v * 10 + unit,
                unit >= 1024,
                v <= 2 * (u64::MAX as int),
                unit <= 1024 * 1024 * 1024,
        ;
    }
    let t: u64 = tenths as u64;
    let mut r: String = text::number(t / 10);
    r.append(".");
    r.append(text::number(t % 10).as_str());
    r.append(" ");
    r.append(name);
    r
}

/// A number with at least two digits.
pub open spec fn two_digits(n: nat) -> Seq<char> {
    if n < 10 { "0"@ + text::decimal(n) } else { text::decimal(n) }
}

/// A time for people: `mm:ss`, or `h:mm:ss` from one hour on.
pub open spec fn eta_text(s: nat) -> Seq<char> {
    if s >= 3600 {
        text::decimal(s / 3600) + ":"@ + two_digits((s % 3600) / 60) + ":"@ + two_digits(s % 60)
    } else {
        two_digits(s / 60) + ":"@ + two_digits(s % 60)
    }
}

fn pad_two(n: u64) -> (r: String)
    ensures
        r@ == two_digits(n as nat),
{
    if n < 10 { text::join("0", text::number(n).as_str()) } else { text::number(n) }
}

/// A number of seconds for people.
pub fn fmt_eta(s: u64) -> (r: String)
    ensures
        r@ == eta_text(s as nat),
{
    if s >= 3600 {
        let mut r: String = text::number(s / 3600);
        r.append(":");
        r.append(pad_two((s % 3600) / 60).as_str());
        r.append(":");
        r.append(pad_two(s % 60).as_str());
        r
    } else {
        let mut r: String = pad_two(s / 60);
        r.append(":");
        r.append(pad_two(s % 60).as_str());
        r
    }
}

/// How a line of the log is shown.
#[derive(Debug, Clone, Copy, PartialEq, Eq, Structural)]
pub enum Tone {
    /// An error.
    Bad,
    /// A download that is complete.
    Good,
    /// A new version.
    News,
    Plain,
}

/// How a line of the log is shown.
pub open spec fn tone_of(line: Seq<char>) -> Tone {
    if text::find_text(line, "ERRORE"@) is Some {
        Tone::Bad
    } else if text::find_text(line, "completato"@) is Some {
        Tone::Good
    } else if text::find_text(line, "aggiornamento"@) is Some {
        Tone::News
    } else {
        Tone::Plain
    }
}

/// How a line of the log is shown.
pub fn log_tone(line: &str) -> (r: Tone)
    ensures
        r == tone_of(line@),
{
    let v = text::to_chars(line);
    if text::search(&v, "ERRORE").is_some() {
        Tone::Bad
    } else if text::search(&v, "completato").is_some() {
        Tone::Good
    } else if text::search(&v, "aggiornamento").is_some() {
        Tone::News
    } else {
        Tone::Plain
    }
}

/// The title of the list of downloads.
pub fn list_title(active: u64) -> (r: String)
    ensures
        r@ == if active > 0 {
            "Downloads — "@ + text::decimal(active as nat) + " attivi"@
        } else {
            "Downloads"@
        },
{
    if active > 0 {
        let mut r: String = text::join("Downloads — ", text::number(active).as_str());
        r.append(" attivi");
        r
    } else {
        text::owned("Downloads")
    }
}

/// The buttons of a download.
#[derive(Debug, Clone, Copy, PartialEq, Eq, Structural)]
pub struct Buttons {
    pub abort: bool,
    pub pause: bool,
    pub resume: bool,
    pub open: bool,
    /// Takes it off the list.
    pub close: bool,
    /// Taking it off the list deletes what was downloaded of it.
    pub discards: bool,
}

/// The buttons of a download: one at work can be stopped, one at rest can go
/// on or be thrown away, one that is over can be taken off the list. One that
/// waits for its turn can only be stopped.
pub fn buttons(status: &Status) -> (r: Buttons)
    ensures
        r.abort == (status.busy() || status is Queued),
        r.pause == status.busy(),
        r.resume == status.resumable(),
        r.open == status is Done,
        r.close == !(status.busy() || status is Queued),
        r.discards == status.resumable(),
{
    let busy = status.is_busy();
    let rest = status.is_resumable();
    let queued = match status {
        Status::Queued => true,
        _ => false,
    };
    let done = match status {
        Status::Done => true,
        _ => false,
    };
    Buttons {
        abort: busy || queued,
        pause: busy,
        resume: rest,
        open: done,
        close: !(busy || queued),
        discards: rest,
    }
}

/// The line under a download that is at work: how much, how fast, and how
/// long still.
pub open spec fn active_line(d: Download, pct: Seq<char>, speed: u64, eta: Option<u64>) -> Seq<char> {
    let eta_shown = match eta {
        Some(s) => eta_text(s as nat),
        None => "--:--"@,
    };
    if d.total > 0 {
        pct + bytes_text(d.done as int) + " / "@ + bytes_text(d.total as int) + "   ▼ "@
            + bytes_text(speed as int) + "/s   eta "@ + eta_shown + "   "@ + text::decimal(
            d.conc as nat,
        ) + " conn"@
    } else {
        bytes_text(d.done as int) + "   ▼ "@ + bytes_text(speed as int) + "/s"@
    }
}

/// The line under a download.
pub open spec fn status_line(d: Download, pct: Seq<char>, speed: u64, eta: Option<u64>) -> Seq<char> {
    match d.status {
        Status::Queued => "in coda ("@ + text::decimal(d.queue_pos as nat) + " davanti)"@,
        Status::Connecting => "connessione..."@,
        Status::Active => active_line(d, pct, speed, eta),
        Status::Paused => pct + bytes_text(d.done as int) + " / "@ + bytes_text(d.total as int)
            + "   in pausa — riprende dal punto esatto"@,
        Status::Done => bytes_text(num::max_of(d.done as int, d.total as int)) + "   completato"@,
        Status::Failed(e) => "fallito: "@ + e@ + " — [ resume ] per ritentare"@,
        Status::Cancelled => "annullato"@,
    }
}

/// The line under a download. `pct` is how much of it is done, as text; it is
/// empty if the size is not known. `speed` is in bytes per second; `eta` is
/// how many seconds are left at that speed, if that can be told.
pub fn row_info(d: &Download, pct: &str, speed: u64, eta: Option<u64>) -> (r: String)
    ensures
        r@ == status_line(*d, pct@, speed, eta),
{
    match &d.status {
        Status::Queued => {
            let mut r: String = text::join("in coda (", text::number(d.queue_pos).as_str());
            r.append(" davanti)");
            r
        },
        Status::Connecting => text::owned("connessione..."),
        Status::Active => {
            let eta_shown = match eta {
                Some(s) => fmt_eta(s),
                None => text::owned("--:--"),
            };
            if d.total > 0 {
                let mut r: String = text::join(pct, fmt_bytes(d.done).as_str());
                r.append(" / ");
                r.append(fmt_bytes(d.total).as_str());
                r.append("   ▼ ");
                r.append(fmt_bytes(speed).as_str());
                r.append("/s   eta ");
                r.append(eta_shown.as_str());
                r.append("   ");
                r.append(text::number(d.conc).as_str());
                r.append(" conn");
                r
            } else {
                let mut r: String = text::join(fmt_bytes(d.done).as_str(), "   ▼ ");
                r.append(fmt_bytes(speed).as_str());
                r.append("/s");
                r
            }
        },
        Status::Paused => {
            let mut r: String = text::join(pct, fmt_bytes(d.done).as_str());
            r.append(" / ");
            r.append(fmt_bytes(d.total).as_str());
            r.append("   in pausa — riprende dal punto esatto");
            r
        },
        Status::Done => text::join(
            fmt_bytes(num::larger(d.done, d.total)).as_str(),
            "   completato",
        ),
        Status::Failed(e) => {
            let mut r: String = text::join("fallito: ", e.as_str());
            r.append(" — [ resume ] per ritentare");
            r
        },
        Status::Cancelled => text::owned("annullato"),
    }
}

/// The folder that a text field of the settings names: without the blanks
/// around it.
pub fn folder_setting(field: &str) -> (r: String)
    ensures
        r@ == text::trim(field@, text::Class::White),
{
    text::from_chars(&text::strip(&text::to_chars(field), text::Class::White))
}

/// A colour.
#[derive(Debug, Clone, Copy, PartialEq, Eq, Structural)]
pub struct Rgb {
    pub r: u8,
    pub g: u8,
    pub b: u8,
}

/// The colour of a pixel in the drawings; `None` is transparent.
pub open spec fn colour_of(c: char) -> Option<Rgb> {
    if c == 'o' {
        Some(Rgb { r: 0x6e, g: 0x76, b: 0x9c })
    } else if c == 'a' {
        Some(Rgb { r: 0xe9, g: 0xc8, b: 0x85 })
    } else if c == 'p' {
        Some(Rgb { r: 0xe8, g: 0xa0, b: 0xa8 })
    } else if c == 'k' || c == '-' {
        Some(Rgb { r: 0x2c, g: 0x31, b: 0x4a })
    } else {
        None
    }
}

/// The colour of a pixel in the drawings: body, amber, pink, and dark for an
/// eye, open or closed. Anything else is transparent.
pub fn sprite_color(c: char) -> (r: Option<Rgb>)
    ensures
        r == colour_of(c),
{
    match c {
        'o' => Some(Rgb { r: 0x6e, g: 0x76, b: 0x9c }),
        'a' => Some(Rgb { r: 0xe9, g: 0xc8, b: 0x85 }),
        'p' => Some(Rgb { r: 0xe8, g: 0xa0, b: 0xa8 }),
        'k' => Some(Rgb { r: 0x2c, g: 0x31, b: 0x4a }),
        '-' => Some(Rgb { r: 0x2c, g: 0x31, b: 0x4a }),
        _ => None,
    }
}

/// How wide the mouse is, in pixels.
pub const PET_W: usize = 14;

/// How high the mouse is, in pixels.
pub const PET_H: usize = 7;

/// A row of the running mouse.
pub open spec fn mouse_row(y: int) -> Seq<char> {
    if y == 0 || y == 1 {
        "..........pp.."@
    } else if y == 2 {
        "....oooooooo.."@
    } else if y == 3 {
        "p..oooooooooo."@
    } else if y == 4 {
        ".ppoooooookop."@
    } else if y == 5 {
        "...oooooooooo."@
    } else {
        "....oo....oo.."@
    }
}

/// A row of the running mouse.
pub fn pet_row(y: usize) -> (r: &'static str)
    requires
        y < PET_H,
    ensures
        r@ == mouse_row(y as int),
        r@.len() == PET_W,
{
    proof {
        reveal_strlit("..........pp..");
        reveal_strlit("....oooooooo..");
        reveal_strlit("p..oooooooooo.");
        reveal_strlit(".ppoooooookop.");
        reveal_strlit("...oooooooooo.");
        reveal_strlit("....oo....oo..");
    }
    if y == 0 || y == 1 {
        "..........pp.."
    } else if y == 2 {
        "....oooooooo.."
    } else if y == 3 {
        "p..oooooooooo."
    } else if y == 4 {
        ".ppoooooookop."
    } else if y == 5 {
        "...oooooooooo."
    } else {
        "....oo....oo.."
    }
}

/// The side of the icon, in pixels.
pub const ICON: usize = 32;

/// The colour of the icon at `(x, y)`: the mouse, twice as large and in the
/// middle.
pub open spec fn icon_colour(x: int, y: int) -> Option<Rgb> {
    if 2 <= x < 30 && 9 <= y < 23 {
        colour_of(mouse_row((y - 9) / 2)[(x - 2) / 2])
    } else {
        None
    }
}

/// One byte of the icon: red, green, blue and opacity of each pixel in turn,
/// row by row.
pub open spec fn icon_byte(i: int) -> u8 {
    let x = i / 4 % 32;
    let y = i / 4 / 32;
    match icon_colour(x, y) {
        Some(c) => if i % 4 == 0 {
            c.r
        } else if i % 4 == 1 {
            c.g
        } else if i % 4 == 2 {
            c.b
        } else {
            255
        },
        None => 0,
    }
}

fn icon_pixel(x: usize, y: usize) -> (r: Option<Rgb>)
    requires
        x < ICON,
        y < ICON,
    ensures
        r == icon_colour(x as int, y as int),
{
    if 2 <= x && x < 30 && 9 <= y && y < 23 {
        let row = text::to_chars(pet_row((y - 9) / 2));
        sprite_color(row[(x - 2) / 2])
    } else {
        None
    }
}

/// The icon: 32 pixels square, four bytes each.
pub fn icon_rgba() -> (r: Vec<u8>)
    ensures
        r@.len() == 4096,
        forall|i: int| 0 <= i < 4096 ==> #[trigger] r@[i] == icon_byte(i),
{
    let mut px: Vec<u8> = Vec::new();
    let mut p: usize = 0;
    while p < 1024
        invariant
            p <= 1024,
            px@.len() == 4 * p,
            forall|i: int| 0 <= i < 4 * p ==> #[trigger] px@[i] == icon_byte(i),
        decreases 1024 - p,
    {
        let c = icon_pixel(p % 32, p / 32);
        match c {
            Some(rgb) => {
                px.push(rgb.r);
                px.push(rgb.g);
                px.push(rgb.b);
                px.push(255);
            },
            None => {
                px.push(0);
                px.push(0);
                px.push(0);
                px.push(0);
            },
        }
        assert(px@[4 * p] == icon_byte(4 * p));
        assert(px@[4 * p + 1] == icon_byte(4 * p + 1));
        assert(px@[4 * p + 2] == icon_byte(4 * p + 2));
        assert(px@[4 * p + 3] == icon_byte(4 * p + 3));
        p = p + 1;
    }
    px
}

/// The mark in front of a download.
#[derive(Debug, Clone, Copy, PartialEq, Eq, Structural)]
pub enum Mark {
    /// It turns while the download is at work.
    Spinner,
    Waiting,
    Pause,
    Check,
    Cross,
    Dash,
}

/// The mark in front of a download.
pub fn mark(status: &Status) -> (r: Mark)
    ensures
        r == match *status {
            Status::Active => Mark::Spinner,
            Status::Connecting => Mark::Spinner,
            Status::Queued => Mark::Waiting,
            Status::Paused => Mark::Pause,
            Status::Done => Mark::Check,
            Status::Failed(_) => Mark::Cross,
            Status::Cancelled => Mark::Dash,
        },
{
    match status {
        Status::Active => Mark::Spinner,
        Status::Connecting => Mark::Spinner,
        Status::Queued => Mark::Waiting,
        Status::Paused => Mark::Pause,
        Status::Done => Mark::Check,
        Status::Failed(_) => Mark::Cross,
        Status::Cancelled => Mark::Dash,
    }
}

/// What the progress bar of a download shows.
#[derive(Debug)]
pub enum Gauge {
    /// Nothing.
    Empty,
    /// Everything.
    Full,
    /// That it moves: its size is not known.
    Moving,
    /// Where each range starts, and how much of it is there.
    Pieces(Vec<(u64, u64)>),
}

/// Where each range starts and how much of it is there.
pub open spec fn gauge_pieces(segs: Seq<Seg>) -> Seq<(u64, u64)> {
    segs.map_values(|s: Seg| (s.start, num::min_of(s.done as int, s.span()) as u64))
}

/// What the progress bar of a download shows.
pub fn gauge(d: &Download) -> (r: Gauge)
    requires
        segment::all_countable(d.segs@),
    ensures
        if d.status is Done {
            r is Full
        } else if d.total == 0 || d.segs@.len() == 0 {
            if d.done > 0 && d.status is Active {
                r is Moving
            } else {
                r is Empty
            }
        } else {
            r matches Gauge::Pieces(p) && p@ == gauge_pieces(d.segs@)
        },
{
    match &d.status {
        Status::Done => {
            return Gauge::Full;
        },
        _ => {},
    }
    if d.total == 0 || d.segs.len() == 0 {
        let active = match &d.status {
            Status::Active => true,
            _ => false,
        };
        return if d.done > 0 && active { Gauge::Moving } else { Gauge::Empty };
    }
    let mut p: Vec<(u64, u64)> = Vec::new();
    let mut i: usize = 0;
    while i < d.segs.len()
        invariant
            segment::all_countable(d.segs@),
            i <= d.segs@.len(),
            p@ == gauge_pieces(d.segs@).take(i as int),
        decreases d.segs@.len() - i,
    {
        let s: Seg = d.segs[i];
        assert(d.segs@[i as int].span() <= u64::MAX);
        p.push((s.start, num::smaller(s.done, s.len())));
        i = i + 1;
        assert(gauge_pieces(d.segs@).take(i as int).drop_last() =~= gauge_pieces(d.segs@).take(
            i - 1,
        ));
    }
    assert(gauge_pieces(d.segs@).take(i as int) =~= gauge_pieces(d.segs@));
    Gauge::Pieces(p)
}

/// What is said of how many downloads are at work.
pub fn activity_label(active: u64) -> (r: String)
    ensures
        r@ == if active > 0 {
            "● "@ + text::decimal(active as nat) + " ACTIVE"@
        } else {
            "● IDLE"@
        },
{
    if active > 0 {
        let mut r: String = text::join("● ", text::number(active).as_str());
        r.append(" ACTIVE");
        r
    } else {
        text::owned("● IDLE")
    }
}

/// What is said of a new version: its number, or that it is being installed.
pub fn update_label(version: &str, busy: bool) -> (r: String)
    ensures
        r@ == if busy { "[ aggiorno... ]"@ } else { "[ ⇡ update "@ + version@ + " ]"@ },
{
    if busy {
        text::owned("[ aggiorno... ]")
    } else {
        let mut r: String = text::join("[ ⇡ update ", version);
        r.append(" ]");
        r
    }
}

/// Sizes that no double-precision number has are shown as the nearest that one
/// has, in gigabytes.
pub proof fn huge_sizes_are_shown_as_doubles(b: int, t: nat)
    requires
        b >= 0x20_0000_0000_0000,
        -1_073_741_824 < 2 * (t * 1_073_741_824 - 10 * as_double(b)) < 1_073_741_824,
    ensures
        bytes_text(b) == text::decimal(t / 10) + "."@ + text::decimal(t % 10) + " "@ + "GB"@,
{
    doubles_have_fifty_three_bits(b);
    the_nearest_integer_is_taken(as_double(b) * 10, 1_073_741_824);
}

/// Rounding gives a nearest integer, and of two that are equally near the even
/// one.
pub proof fn the_nearest_integer_is_taken(n: int, d: int)
    requires
        n >= 0,
        d > 0,
    ensures
        -d <= 2 * (half_even(n, d) * d - n) <= d,
        2 * (half_even(n, d) * d - n) == d || 2 * (half_even(n, d) * d - n) == -d ==> half_even(
            n,
            d,
        ) % 2 == 0,
{
    let q = n / d;
    let r = n % d;
    assert(q * d + r == n && 0 <= r < d && (q + 1) * d == q * d + d) by (nonlinear_arith)
        requires
            d > 0,
            q == n / d,
            r == n % d,
    ;
}

/// Numbers of up to fifty-three bits are what they are as double-precision
/// numbers; larger ones are rounded to fifty-three bits.
pub proof fn doubles_have_fifty_three_bits(b: int)
    requires
        b >= 0,
    ensures
        b < 0x20_0000_0000_0000 ==> spacing(b) == 1 && as_double(b) == b,
        b >= 0x20_0000_0000_0000 ==> spacing(b) * 0x10_0000_0000_0000 <= b < spacing(b)
            * 0x20_0000_0000_0000,
        spacing(b) >= 1,
        -spacing(b) <= 2 * (as_double(b) - b) <= spacing(b),
    decreases b,
{
    if b >= 0x20_0000_0000_0000 {
        doubles_have_fifty_three_bits(b / 2);
    } else {
        assert(b / 1 == b && b % 1 == 0);
        assert(b * 1 == b) by (nonlinear_arith);
    }
    the_nearest_integer_is_taken(b, spacing(b));
}

/// Sizes are shown in the largest unit that fits, with the nearest tenth:
/// bytes below a kilobyte, and no unit above the gigabyte. `t` is how many
/// tenths of the unit are nearest.
pub proof fn sizes_are_shown_to_the_nearest_tenth(b: int, t: nat)
    requires
        0 <= b < 0x20_0000_0000_0000,
    ensures
        b < 1024 ==> bytes_text(b) == text::decimal(b as nat) + " B"@,
        1024 <= b < 1_048_576 && -1024 < 2 * (t * 1024 - 10 * b) < 1024 ==> bytes_text(b)
            == text::decimal(t / 10) + "."@ + text::decimal(t % 10) + " "@ + "KB"@,
        1_048_576 <= b < 1_073_741_824 && -1_048_576 < 2 * (t * 1_048_576 - 10 * b) < 1_048_576
            ==> bytes_text(b) == text::decimal(t / 10) + "."@ + text::decimal(t % 10) + " "@
            + "MB"@,
        1_073_741_824 <= b && -1_073_741_824 < 2 * (t * 1_073_741_824 - 10 * b) < 1_073_741_824
            ==> bytes_text(b) == text::decimal(t / 10) + "."@ + text::decimal(t % 10) + " "@
            + "GB"@,
{
    doubles_have_fifty_three_bits(b);
    the_nearest_integer_is_taken(b * 10, 1024);
    the_nearest_integer_is_taken(b * 10, 1_048_576);
    the_nearest_integer_is_taken(b * 10, 1_073_741_824);
}

/// A time is shown as its minutes and seconds, two digits each, and from an
/// hour on with the hours before them.
#[verifier::rlimit(40)]
pub proof fn times_are_hours_minutes_and_seconds(h: nat, m: nat, s: nat)
    requires
        m < 60,
        s < 60,
    ensures
        h == 0 ==> eta_text(m * 60 + s) == two_digits(m) + ":"@ + two_digits(s),
        h > 0 ==> eta_text(h * 3600 + m * 60 + s) == text::decimal(h) + ":"@ + two_digits(m) + ":"@
            + two_digits(s),
        two_digits(m).len() == 2,
        text::parsed(two_digits(m), 59) == Some(m),
        two_digits(100 + m) == text::decimal(100 + m),
{
    let t = h * 3600 + m * 60 + s;
    assert(t / 3600 == h && (t % 3600) / 60 == m && t % 60 == s);
    let u = m * 60 + s;
    assert(u / 60 == m && u % 60 == s);
    reveal_strlit("0");
    text::lemma_decimal(m);
    text::number_reads_back(m, 59);
    text::numbers_are_written_plainly(m, 0);
    let w = two_digits(m);
    if m < 10 {
        assert(w =~= seq!['0', text::digit(m as int)]);
        assert(w.drop_last() =~= seq!['0']);
        text::digits_count_by_their_places(Seq::empty(), 0);
        assert(Seq::empty().push('0') =~= seq!['0']);
        text::digits_count_by_their_places(seq!['0'], m as int);
        assert(seq!['0'].push(text::digit(m as int)) =~= w);
        assert(text::value_of(w) == m);
        assert(text::all_digits(w));
    } else {
        assert(text::decimal(m) =~= text::decimal(m / 10).push(text::digit((m % 10) as int)));
        assert(text::decimal(m / 10).len() == 1);
    }
}

/// A line of the log that speaks of an error is shown as one, whatever else it
/// says; then come complete downloads and new versions. A line that speaks of
/// none of these is plain.
pub proof fn errors_are_shown_first(line: Seq<char>, a: Seq<char>, b: Seq<char>)
    ensures
        line == a + "ERRORE"@ + b ==> tone_of(line) is Bad,
        line == a + "completato"@ + b ==> tone_of(line) is Bad || tone_of(line) is Good,
        line == a + "completato"@ + b && text::find_text(line, "ERRORE"@) is None ==> tone_of(
            line,
        ) is Good,
        line == a + "aggiornamento"@ + b ==> !(tone_of(line) is Plain),
        line == a + "aggiornamento"@ + b && text::find_text(line, "ERRORE"@) is None
            && text::find_text(line, "completato"@) is None ==> tone_of(line) is News,
        text::find_text(line, "ERRORE"@) is None && text::find_text(line, "completato"@) is None
            && text::find_text(line, "aggiornamento"@) is None ==> tone_of(line) is Plain,
{
    lemma_is_found(line, a, "ERRORE"@, b);
    lemma_is_found(line, a, "completato"@, b);
    lemma_is_found(line, a, "aggiornamento"@, b);
}

proof fn lemma_is_found(line: Seq<char>, a: Seq<char>, pat: Seq<char>, b: Seq<char>)
    ensures
        line == a + pat + b ==> text::find_text(line, pat) is Some,
{
    text::the_first_place_is_found(line, pat);
    if line == a + pat + b {
        let n = a.len() as int;
        assert(line.subrange(n, n + pat.len()) =~= pat);
    }
}

/// The bar shows each range where it starts, with what is there of it and
/// never more than it spans.
pub proof fn bars_show_what_is_there(segs: Seq<Seg>, i: int)
    requires
        0 <= i < segs.len(),
        segs[i].start <= segs[i].end,
        segs[i].end - segs[i].start < u64::MAX,
    ensures
        gauge_pieces(segs).len() == segs.len(),
        gauge_pieces(segs)[i].0 == segs[i].start,
        segs[i].done <= segs[i].end - segs[i].start + 1 ==> gauge_pieces(segs)[i].1 == segs[i].done,
        segs[i].done > segs[i].end - segs[i].start + 1 ==> gauge_pieces(segs)[i].1 == segs[i].end
            - segs[i].start + 1,
{
}

/// The icon is the mouse with every pixel of it two pixels high and wide, in
/// the middle of nothing; a pixel is either opaque or not there at all.
pub proof fn the_icon_is_the_mouse_twice_as_large(x: int, y: int, dx: int, dy: int, i: int)
    requires
        0 <= dx <= 1,
        0 <= dy <= 1,
    ensures
        0 <= x < 14 && 0 <= y < 7 ==> icon_colour(2 + 2 * x + dx, 9 + 2 * y + dy) == colour_of(
            mouse_row(y)[x],
        ),
        x < 2 || x >= 30 || y < 9 || y >= 23 ==> icon_colour(x, y) is None,
        0 <= x < 32 && 0 <= y < 32 ==> {
            let p = 4 * (32 * y + x);
            match icon_colour(x, y) {
                Some(c) => icon_byte(p) == c.r && icon_byte(p + 1) == c.g && icon_byte(p + 2)
                    == c.b && icon_byte(p + 3) == 255,
                None => icon_byte(p) == 0 && icon_byte(p + 1) == 0 && icon_byte(p + 2) == 0
                    && icon_byte(p + 3) == 0,
            }
        },
{
}

/// Every kind of pixel has its colour, an eye the same open or closed, and
/// nothing else has one.
pub proof fn pixels_have_their_colours(c: char)
    ensures
        colour_of(c) is Some <==> c == 'o' || c == 'a' || c == 'p' || c == 'k' || c == '-',
        colour_of('k') == colour_of('-'),
        colour_of('o') == Some(Rgb { r: 0x6e, g: 0x76, b: 0x9c }),
        colour_of('a') == Some(Rgb { r: 0xe9, g: 0xc8, b: 0x85 }),
        colour_of('p') == Some(Rgb { r: 0xe8, g: 0xa0, b: 0xa8 }),
        colour_of('k') == Some(Rgb { r: 0x2c, g: 0x31, b: 0x4a }),
{
}

/// The line under a download that waits says how many wait in front of it, as
/// a number that can be read.
pub proof fn waiting_lines_say_how_many_wait(
    d: Download,
    pct: Seq<char>,
    speed: u64,
    eta: Option<u64>,
)
    requires
        d.status is Queued,
    ensures
        ({
            let t = text::after_prefix(status_line(d, pct, speed, eta), "in coda ("@);
            let u = text::before_suffix(t->0, " davanti)"@);
            &&& t is Some && u is Some
            &&& text::parsed(u->0, u64::MAX as nat) == Some(d.queue_pos as nat)
        }),
{
    let line = status_line(d, pct, speed, eta);
    let n = text::decimal(d.queue_pos as nat);
    assert(line =~= "in coda ("@ + (n + " davanti)"@));
    text::beginnings_and_ends_come_off("in coda ("@, n + " davanti)"@, n);
    text::beginnings_and_ends_come_off(" davanti)"@, n, n);
    text::number_reads_back(d.queue_pos as nat, u64::MAX as nat);
}

/// The line under a download that rests or is over begins with how much there
/// is of it, and that under one that failed with the reason.
pub proof fn resting_lines_say_how_much_is_there(
    d: Download,
    pct: Seq<char>,
    speed: u64,
    eta: Option<u64>,
)
    ensures
        ({
            let line = status_line(d, pct, speed, eta);
            let done = bytes_text(d.done as int);
            let total = bytes_text(d.total as int);
            &&& d.status is Paused ==> (pct + done + " / "@ + total).is_prefix_of(line)
            &&& d.status is Done && d.done >= d.total ==> done.is_prefix_of(line)
            &&& d.status is Done && d.done < d.total ==> total.is_prefix_of(line)
            &&& d.status matches Status::Failed(e) ==> ("fallito: "@ + e@).is_prefix_of(line)
            &&& d.status is Connecting ==> line == "connessione..."@
            &&& d.status is Cancelled ==> line == "annullato"@
        }),
{
    let done = bytes_text(d.done as int);
    let total = bytes_text(d.total as int);
    match d.status {
        Status::Paused => {
            lemma_begins(pct + done + " / "@ + total, "   in pausa — riprende dal punto esatto"@);
        },
        Status::Done => {
            lemma_begins(done, "   completato"@);
            lemma_begins(total, "   completato"@);
        },
        Status::Failed(e) => {
            lemma_begins("fallito: "@ + e@, " — [ resume ] per ritentare"@);
        },
        _ => {},
    }
}

/// The line under a download at work begins with how much there is of it and,
/// if that is known, of how much, and ends with its speed or how many
/// connections it may use.
#[verifier::rlimit(40)]
pub proof fn working_lines_say_how_far_it_is(
    d: Download,
    pct: Seq<char>,
    speed: u64,
    eta: Option<u64>,
)
    requires
        d.status is Active,
    ensures
        ({
            let line = status_line(d, pct, speed, eta);
            let done = bytes_text(d.done as int);
            let total = bytes_text(d.total as int);
            let conc = text::decimal(d.conc as nat);
            &&& d.total > 0 ==> (pct + done + " / "@ + total + "   ▼ "@ + bytes_text(
                speed as int,
            )).is_prefix_of(line)
            &&& d.total > 0 ==> (eta matches Some(s) ==> text::before_suffix(
                line,
                "/s   eta "@ + eta_text(s as nat) + ("   "@ + conc + " conn"@),
            ) is Some)
            &&& d.total > 0 && eta is None ==> text::before_suffix(
                line,
                "/s   eta "@ + "--:--"@ + ("   "@ + conc + " conn"@),
            ) is Some
            &&& d.total > 0 ==> text::before_suffix(line, "   "@ + conc + " conn"@) is Some
            &&& d.total == 0 ==> line == done + "   ▼ "@ + bytes_text(speed as int) + "/s"@
        }),
{
    let line = status_line(d, pct, speed, eta);
    if d.total > 0 {
        let shown = match eta {
            Some(s) => eta_text(s as nat),
            None => "--:--"@,
        };
        let conc = text::decimal(d.conc as nat);
        let a = pct + bytes_text(d.done as int) + " / "@ + bytes_text(d.total as int) + "   ▼ "@
            + bytes_text(speed as int);
        let b = a + "/s   eta "@;
        let c = b + shown;
        let e = c + "   "@;
        let f = e + conc;
        assert(line == f + " conn"@);
        lemma_begins(a, "/s   eta "@);
        lemma_begins_on(a, b, shown);
        lemma_begins_on(a, c, "   "@);
        lemma_begins_on(a, e, conc);
        lemma_begins_on(a, f, " conn"@);
        let tail = "   "@ + conc + " conn"@;
        assert(line =~= c + tail);
        text::beginnings_and_ends_come_off(tail, c, c);
        let long = "/s   eta "@ + shown + tail;
        assert(c + tail =~= a + long);
        text::beginnings_and_ends_come_off(long, a, a);
    }
}

proof fn lemma_begins(a: Seq<char>, b: Seq<char>)
    ensures
        a.is_prefix_of(a + b),
{
    assert((a + b).subrange(0, a.len() as int) =~= a);
}

proof fn lemma_begins_on(a: Seq<char>, b: Seq<char>, c: Seq<char>)
    requires
        a.is_prefix_of(b),
    ensures
        a.is_prefix_of(b + c),
{
    assert((b + c).subrange(0, a.len() as int) =~= b.subrange(0, a.len() as int));
}

/// The mouse has two rows of ears, alike, then its back, its tail, its eye and
/// nose, its belly and its feet; it is as high as it has rows, and each is as
/// wide as the mouse.
pub proof fn the_mouse_has_its_rows(y: int)
    requires
        0 <= y < PET_H,
    ensures
        mouse_row(y).len() == PET_W,
        PET_W == 14 && PET_H == 7 && ICON == 32,
        y < 2 ==> mouse_row(y) == "..........pp.."@,
        y == 2 ==> mouse_row(y) == "....oooooooo.."@,
        y == 3 ==> mouse_row(y) == "p..oooooooooo."@,
        y == 4 ==> mouse_row(y) == ".ppoooooookop."@,
        y == 5 ==> mouse_row(y) == "...oooooooooo."@,
        y == 6 ==> mouse_row(y) == "....oo....oo.."@,
{
    reveal_strlit("..........pp..");
    reveal_strlit("....oooooooo..");
    reveal_strlit("p..oooooooooo.");
    reveal_strlit(".ppoooooookop.");
    reveal_strlit("...oooooooooo.");
    reveal_strlit("....oo....oo..");
}

} // verus!
