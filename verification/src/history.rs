//! The list of downloads that are over, one line of text each.
//!
//! Lines are only ever appended, so a crash in the middle of one loses that
//! line and no other: it is ended before the next one is appended, and skipped
//! when the list is read.

use crate::foreign;
use crate::names::{self, FilePath};
use crate::num;
use crate::text;
use vstd::prelude::*;
use vstd::string::*;
use vstd::utf8::*;

verus! {

/// A line feed.
pub const LF: u8 = 10;

/// A carriage return.
pub const CR: u8 = 13;

/// How many entries are read, and kept when the file is rewritten.
pub const KEEP: usize = 200;

/// A download that is over.
#[derive(Debug)]
pub struct Entry {
    pub name: String,
    pub url: String,
    pub path: FilePath,
    pub bytes: u64,
    /// Seconds it took.
    pub secs: u64,
    /// When it ended, in seconds since 1970.
    pub at: u64,
    pub ok: bool,
}

/// Where the list is kept.
pub fn path(data_dir: &str) -> (r: FilePath)
    ensures
        r@ == names::at(data_dir@, "history.jsonl"@),
{
    FilePath::new(data_dir, "history.jsonl")
}

/// Where the list is written before it takes its place.
pub fn temp_path(data_dir: &str) -> (r: FilePath)
    ensures
        r@ == names::at(data_dir@, "history.jsonl.tmp"@),
{
    FilePath::new(data_dir, "history.jsonl.tmp")
}

/// The seconds since 1970, given what the system's clock says: zero if it
/// stands before that.
pub fn now_epoch(since: Option<u64>) -> (r: u64)
    ensures
        r == match since {
            Some(s) => s,
            None => 0,
        },
{
    match since {
        Some(s) => s,
        None => 0,
    }
}

/// The entries among `parsed`, the last one first.
pub open spec fn newest_first(parsed: Seq<Option<Entry>>) -> Seq<Entry>
    decreases parsed.len(),
{
    if parsed.len() == 0 {
        Seq::empty()
    } else {
        match parsed.last() {
            Some(e) => seq![e] + newest_first(parsed.drop_last()),
            None => newest_first(parsed.drop_last()),
        }
    }
}

/// The entries to show, the newest first: those of the lines that could be
/// read, and at most [`KEEP`].
pub fn recent(parsed: Vec<Option<Entry>>) -> (r: Vec<Entry>)
    ensures
        r@ == newest_first(parsed@).take(
            num::min_of(newest_first(parsed@).len() as int, KEEP as int),
        ),
{
    let ghost all = newest_first(parsed@);
    let mut rest = parsed;
    let mut r: Vec<Entry> = Vec::new();
    while rest.len() > 0 && r.len() < KEEP
        invariant
            r@.len() <= KEEP,
            all == r@ + newest_first(rest@),
        decreases rest@.len(),
    {
        let ghost before = rest@;
        let ghost got = r@;
        let last = rest.pop();
        assert(rest@ =~= before.drop_last());
        match last {
            Some(Some(e)) => {
                r.push(e);
                assert(r@ + newest_first(rest@) =~= got + newest_first(before));
            },
            _ => {},
        }
    }
    proof {
        if rest@.len() == 0 {
            assert(newest_first(rest@) =~= Seq::empty());
        }
        assert(r@ =~= all.take(num::min_of(all.len() as int, KEEP as int)));
    }
    r
}

/// The views of a list of texts.
pub open spec fn text_views(v: Seq<String>) -> Seq<Seq<char>> {
    v.map_values(|x: String| x@)
}

/// A line without the carriage return at its end.
pub open spec fn without_return(line: Seq<u8>) -> Seq<u8> {
    if line.len() > 0 && line.last() == CR { line.drop_last() } else { line }
}

/// The lines of a file: each ends with a line feed, and a carriage return
/// before it is not part of the line. What follows the last line feed is a
/// line too, unless it is empty.
pub open spec fn lines_of(s: Seq<u8>) -> Seq<Seq<u8>> {
    let p = text::pieces(s, LF);
    let ended = Seq::new((p.len() - 1) as nat, |i: int| without_return(p[i]));
    if p.last().len() == 0 { ended } else { ended.push(p.last()) }
}

/// The views of a list of byte strings.
pub open spec fn byte_views(v: Seq<Vec<u8>>) -> Seq<Seq<u8>> {
    v.map_values(|x: Vec<u8>| x@)
}

fn split_lines(raw: &Vec<u8>) -> (r: Vec<Vec<u8>>)
    ensures
        byte_views(r@) == lines_of(raw@),
{
    let mut r: Vec<Vec<u8>> = Vec::new();
    let mut cur: Vec<u8> = Vec::new();
    let mut i: usize = 0;
    assert(text::pieces(raw@.take(0), LF) =~= seq![Seq::<u8>::empty()]);
    assert(cur@ =~= Seq::empty());
    while i < raw.len()
        invariant
            i <= raw@.len(),
            text::pieces(raw@.take(i as int), LF).len() == r@.len() + 1,
            text::pieces(raw@.take(i as int), LF).last() == cur@,
            byte_views(r@) == complete_lines(raw@.take(i as int)),
        decreases raw@.len() - i,
    {
        let ghost before = text::pieces(raw@.take(i as int), LF);
        let ghost got = r@;
        assert(raw@.take(i + 1).drop_last() =~= raw@.take(i as int));
        let b: u8 = raw[i];
        if b == LF {
            let n: usize = cur.len();
            if n > 0 && cur[n - 1] == CR {
                let _ = cur.pop();
            }
            assert(cur@ =~= without_return(before.last()));
            let ghost line = cur@;
            r.push(cur);
            cur = Vec::new();
            assert(cur@ =~= Seq::empty());
            assert(byte_views(r@) =~= byte_views(got).push(line));
            assert(complete_lines(raw@.take(i + 1)) =~= complete_lines(raw@.take(i as int)).push(
                line,
            ));
        } else {
            cur.push(b);
            assert(complete_lines(raw@.take(i + 1)) =~= complete_lines(raw@.take(i as int)));
        }
        i = i + 1;
    }
    assert(raw@.take(i as int) =~= raw@);
    let ghost got = r@;
    let ghost last = cur@;
    if cur.len() > 0 {
        r.push(cur);
        assert(byte_views(r@) =~= byte_views(got).push(last));
    }
    assert(byte_views(r@) =~= lines_of(raw@));
    r
}

/// Cuts the file into its lines and reads each as text. A line that a crash cut
/// in the middle of a character spoils no other.
pub fn lines(raw: &Vec<u8>) -> (r: Vec<String>)
    ensures
        r@.len() == lines_of(raw@).len(),
        forall|i: int|
            0 <= i < r@.len() ==> (#[trigger] r@[i])@ == foreign::lossy(lines_of(raw@)[i]),
        forall|i: int|
            0 <= i < r@.len() && valid_utf8(lines_of(raw@)[i]) ==> (#[trigger] r@[i])@
                == decode_utf8(lines_of(raw@)[i]),
{
    let parts = split_lines(raw);
    let ghost all = lines_of(raw@);
    let mut r: Vec<String> = Vec::new();
    let mut i: usize = 0;
    while i < parts.len()
        invariant
            byte_views(parts@) == all,
            i <= parts@.len(),
            r@.len() == i,
            forall|j: int| 0 <= j < i ==> (#[trigger] r@[j])@ == foreign::lossy(all[j]),
            forall|j: int|
                0 <= j < i && valid_utf8(all[j]) ==> (#[trigger] r@[j])@ == decode_utf8(all[j]),
        decreases parts@.len() - i,
    {
        assert(parts@[i as int]@ == all[i as int]);
        r.push(foreign::utf8_lossy(&parts[i]));
        i = i + 1;
    }
    r
}

/// What is to be appended for a new line, given whether the file ends behind a
/// line feed, as an empty one does: where a crash left a line without its end,
/// that is ended first, or the two would become one.
pub open spec fn appendix(ended: bool, line: Seq<u8>) -> Seq<u8> {
    if ended { line + seq![LF] } else { seq![LF] + line + seq![LF] }
}

/// Adds the bytes of a text.
fn push_text(out: &mut Vec<u8>, s: &str)
    ensures
        final(out)@ == old(out)@ + encode_utf8(s@),
{
    let b = s.as_bytes();
    let ghost before = out@;
    let mut i: usize = 0;
    assert(before + b@.take(0) =~= before);
    while i < b.len()
        invariant
            i <= b@.len(),
            out@ == before + b@.take(i as int),
        decreases b@.len() - i,
    {
        out.push(b[i]);
        i = i + 1;
        assert(out@ =~= before + b@.take(i as int));
    }
    assert(b@.take(i as int) =~= b@);
}

/// What is to be appended to the file for a new line. `ended` says that the
/// file is empty or ends in a line feed.
pub fn appended_text(ended: bool, line: &str) -> (r: Vec<u8>)
    ensures
        r@ == appendix(ended, encode_utf8(line@)),
{
    let mut r: Vec<u8> = Vec::new();
    if !ended {
        r.push(LF);
    }
    push_text(&mut r, line);
    r.push(LF);
    assert(r@ =~= appendix(ended, encode_utf8(line@)));
    r
}

/// Whether a file whose last byte is `last` ends behind a line feed; one that
/// has no byte does.
pub fn ends_a_line(last: Option<u8>) -> (r: bool)
    ensures
        r == match last {
            Some(b) => b == LF,
            None => true,
        },
{
    match last {
        Some(b) => b == LF,
        None => true,
    }
}

/// The file ends behind a line feed, or is empty.
pub open spec fn is_ended(raw: Seq<u8>) -> bool {
    raw.len() == 0 || raw.last() == LF
}

/// The lines of a file that end with a line feed.
pub open spec fn complete_lines(s: Seq<u8>) -> Seq<Seq<u8>> {
    let p = text::pieces(s, LF);
    Seq::new((p.len() - 1) as nat, |i: int| without_return(p[i]))
}

/// A text that can be a line of the file: it holds no line feed and does not
/// end in a carriage return.
pub open spec fn is_line(l: Seq<u8>) -> bool {
    &&& forall|j: int| 0 <= j < l.len() ==> #[trigger] l[j] != LF
    &&& l.len() > 0 ==> l.last() != CR
}

/// Appending loses nothing: every complete line of the file is read back, then
/// the line that a crash left without its end, if there is one, then the new
/// one.
pub proof fn appending_keeps_every_line(raw: Seq<u8>, line: Seq<u8>)
    requires
        is_line(line),
    ensures
        ({
            let after = lines_of(raw + appendix(is_ended(raw), line));
            if is_ended(raw) {
                lines_of(raw) == complete_lines(raw) && after == complete_lines(raw).push(line)
            } else {
                after == complete_lines(raw).push(
                    without_return(text::pieces(raw, LF).last()),
                ).push(line)
            }
        }),
        is_ended(raw + appendix(is_ended(raw), line)),
{
    let p = text::pieces(raw, LF);
    text::lemma_pieces_len(raw, LF);
    lemma_ended(raw);
    if is_ended(raw) {
        lemma_pieces_append(raw, line);
        assert(raw + appendix(true, line) =~= raw + line + seq![LF]);
        assert(without_return(line) == line);
        let q = text::pieces(raw + line + seq![LF], LF);
        assert(q =~= p.update(p.len() - 1, line).push(Seq::empty()));
        assert(lines_of(raw) =~= complete_lines(raw));
        assert(lines_of(raw + appendix(true, line)) =~= complete_lines(raw).push(line));
    } else {
        let g = raw + seq![LF];
        assert(g.drop_last() =~= raw);
        assert(text::pieces(g, LF) == p.push(Seq::empty()));
        lemma_pieces_append(g, line);
        assert(raw + appendix(false, line) =~= g + line + seq![LF]);
        let q = text::pieces(g + line + seq![LF], LF);
        assert(q =~= p.push(line).push(Seq::empty()));
        assert(without_return(line) == line);
        assert(lines_of(raw + appendix(false, line)) =~= complete_lines(raw).push(
            without_return(p.last()),
        ).push(line));
    }
}

/// The last piece of a file is empty exactly where the file ends behind a line
/// feed.
proof fn lemma_ended(raw: Seq<u8>)
    ensures
        text::pieces(raw, LF).len() >= 1,
        is_ended(raw) <==> text::pieces(raw, LF).last().len() == 0,
{
    text::lemma_pieces_len(raw, LF);
    if raw.len() > 0 {
        text::lemma_pieces_len(raw.drop_last(), LF);
    }
}

/// The file that holds the given lines, of which the last one given goes
/// first; those that are not there are left out.
pub open spec fn file_of(lines: Seq<Option<Seq<u8>>>) -> Seq<u8>
    decreases lines.len(),
{
    if lines.len() == 0 {
        Seq::empty()
    } else {
        let rest = file_of(lines.skip(1));
        match lines[0] {
            Some(l) => rest + l + seq![LF],
            None => rest,
        }
    }
}

/// The bytes of a list of texts that may not be there.
pub open spec fn encoded(v: Seq<Option<String>>) -> Seq<Option<Seq<u8>>> {
    v.map_values(
        |x: Option<String>|
            match x {
                Some(l) => Some(encode_utf8(l@)),
                None => None,
            },
    )
}

/// Writes the file anew from entries in the order in which they are shown,
/// each as its line of text: the oldest goes first. A line that could not be
/// made is left out.
pub fn pruned_text(lines: &Vec<Option<String>>) -> (r: Vec<u8>)
    ensures
        r@ == file_of(encoded(lines@)),
{
    let mut r: Vec<u8> = Vec::new();
    let mut i: usize = lines.len();
    let ghost all = encoded(lines@);
    assert(all.skip(i as int) =~= Seq::empty());
    while i > 0
        invariant
            all == encoded(lines@),
            i <= lines@.len(),
            r@ == file_of(all.skip(i as int)),
        decreases i,
    {
        i = i - 1;
        let ghost before = r@;
        assert(all.skip(i as int)[0] == all[i as int]);
        assert(all.skip(i as int).skip(1) =~= all.skip(i + 1));
        match &lines[i] {
            Some(l) => {
                push_text(&mut r, l.as_str());
                r.push(LF);
                assert(r@ =~= before + encode_utf8(l@) + seq![LF]);
            },
            None => {},
        }
    }
    assert(all.skip(0) =~= all);
    r
}

/// A text without a line feed, and without a carriage return at its end, is a
/// line of the file, and is read back as it was.
pub proof fn texts_are_lines(l: Seq<char>)
    requires
        forall|j: int| 0 <= j < l.len() ==> #[trigger] l[j] != '\n',
        l.len() > 0 ==> l.last() != '\r',
    ensures
        is_line(encode_utf8(l)),
        valid_utf8(encode_utf8(l)),
        decode_utf8(encode_utf8(l)) == l,
    decreases l.len(),
{
    encode_utf8_valid_utf8(l);
    encode_utf8_decode_utf8(l);
    if l.len() > 0 {
        let rest = l.drop_first();
        let c = l[0] as u32;
        assert forall|j: int| 0 <= j < rest.len() implies #[trigger] rest[j] != '\n' by {
            assert(rest[j] == l[j + 1]);
        }
        if rest.len() > 0 {
            assert(rest.last() == l.last());
        }
        texts_are_lines(rest);
        lemma_scalar_bytes(c);
        let a = encode_scalar(c);
        let b = encode_utf8(rest);
        assert(encode_utf8(l) == a + b);
        if rest.len() > 0 {
            encode_utf8_first_scalar(rest);
            lemma_scalar_bytes(rest[0] as u32);
            assert(b.len() > 0);
            assert((a + b).last() == b.last());
        } else {
            assert(b.len() == 0);
            assert((a + b).last() == a.last());
        }
    }
}

/// Only the carriage return and the line feed are written with their bytes.
proof fn lemma_scalar_bytes(c: u32)
    ensures
        encode_scalar(c).len() >= 1,
        forall|j: int|
            0 <= j < encode_scalar(c).len() ==> #[trigger] encode_scalar(c)[j] == c
                || encode_scalar(c)[j] >= 0x80,
{
    assert(c <= 0x7f ==> (c & 0x7f) as u8 == c) by (bit_vector);
    assert(forall|x: u8| #[trigger] (0xC0 | x) >= 0x80u8) by (bit_vector);
    assert(forall|x: u8| #[trigger] (0xE0 | x) >= 0x80u8) by (bit_vector);
    assert(forall|x: u8| #[trigger] (0xF0 | x) >= 0x80u8) by (bit_vector);
    assert(forall|x: u8| #[trigger] (0x80 | x) >= 0x80u8) by (bit_vector);
}

/// The lines that are there, in reverse.
pub open spec fn oldest_first(lines: Seq<Option<Seq<u8>>>) -> Seq<Seq<u8>>
    decreases lines.len(),
{
    if lines.len() == 0 {
        Seq::empty()
    } else {
        let rest = oldest_first(lines.skip(1));
        match lines[0] {
            Some(l) => rest.push(l),
            None => rest,
        }
    }
}

/// Rewriting loses nothing: the file that is written from the entries reads
/// back as exactly their lines, the oldest first.
pub proof fn rewriting_keeps_every_line(lines: Seq<Option<Seq<u8>>>)
    requires
        forall|i: int|
            0 <= i < lines.len() && (#[trigger] lines[i]) is Some ==> is_line(lines[i]->0),
    ensures
        lines_of(file_of(lines)) == oldest_first(lines),
    decreases lines.len(),
{
    let f = file_of(lines);
    if lines.len() == 0 {
        assert(text::pieces(f, LF) =~= seq![Seq::<u8>::empty()]);
        assert(lines_of(f) =~= oldest_first(lines));
    } else {
        let rest = lines.skip(1);
        assert forall|i: int| 0 <= i < rest.len() && (#[trigger] rest[i]) is Some implies is_line(
            rest[i]->0,
        ) by {
            assert(rest[i] == lines[i + 1]);
        }
        rewriting_keeps_every_line(rest);
        match lines[0] {
            Some(l) => {
                assert(is_line(l));
                let g = file_of(rest);
                lemma_file_ends(rest);
                appending_keeps_every_line(g, l);
                assert(f =~= g + appendix(true, l));
            },
            None => {},
        }
    }
}

/// A file of lines ends behind a line feed.
proof fn lemma_file_ends(lines: Seq<Option<Seq<u8>>>)
    ensures
        is_ended(file_of(lines)),
    decreases lines.len(),
{
    if lines.len() > 0 {
        lemma_file_ends(lines.skip(1));
    }
}

/// The entries to show of a file, the newest first, where `read` is what the
/// bytes of a line are read as, first as text and then as an entry: what
/// [`lines`] and [`recent`] give.
pub open spec fn loaded(raw: Seq<u8>, read: spec_fn(Seq<u8>) -> Option<Entry>) -> Seq<Entry> {
    let all = newest_first(lines_of(raw).map_values(read));
    all.take(num::min_of(all.len() as int, KEEP as int))
}

/// The file after it was rewritten with the entries that are shown, where
/// `write` is what writes an entry: what [`pruned_text`] gives of them.
pub open spec fn pruned(
    raw: Seq<u8>,
    read: spec_fn(Seq<u8>) -> Option<Entry>,
    write: spec_fn(Entry) -> Seq<u8>,
) -> Seq<u8> {
    file_of(loaded(raw, read).map_values(|e: Entry| Some(write(e))))
}

/// Pruning keeps the entries that are shown, and does so once and for all:
/// what was rewritten reads back as the same entries, one line each and at
/// most [`KEEP`], and to rewrite that again changes nothing. So it is for every
/// reader that reads what the writer writes, if that is one line.
pub proof fn pruning_keeps_the_entries(
    raw: Seq<u8>,
    read: spec_fn(Seq<u8>) -> Option<Entry>,
    write: spec_fn(Entry) -> Seq<u8>,
)
    requires
        forall|e: Entry| #[trigger]
            loaded(raw, read).contains(e) ==> is_line(write(e)) && read(write(e)) == Some(e),
    ensures
        loaded(pruned(raw, read, write), read) == loaded(raw, read),
        lines_of(pruned(raw, read, write)).len() == loaded(raw, read).len() <= KEEP,
        forall|i: int|
            0 <= i < loaded(raw, read).len() ==> #[trigger] lines_of(pruned(raw, read, write))[i]
                == write(loaded(raw, read)[loaded(raw, read).len() - 1 - i]),
        pruned(pruned(raw, read, write), read, write) == pruned(raw, read, write),
{
    let es = loaded(raw, read);
    let lines = es.map_values(|e: Entry| Some(write(e)));
    assert forall|i: int| 0 <= i < lines.len() && (#[trigger] lines[i]) is Some implies is_line(
        lines[i]->0,
    ) by {
        assert(es.contains(es[i]));
    }
    rewriting_keeps_every_line(lines);
    assert forall|i: int| 0 <= i < es.len() implies read(write(#[trigger] es[i])) == Some(es[i]) by {
        assert(es.contains(es[i]));
    }
    lemma_written(es, read, write);
    assert(es.take(es.len() as int) =~= es);
}

/// The lines that entries are written as read back as the entries.
proof fn lemma_written(
    es: Seq<Entry>,
    read: spec_fn(Seq<u8>) -> Option<Entry>,
    write: spec_fn(Entry) -> Seq<u8>,
)
    requires
        forall|i: int| 0 <= i < es.len() ==> read(write(#[trigger] es[i])) == Some(es[i]),
    ensures
        ({
            let old = oldest_first(es.map_values(|e: Entry| Some(write(e))));
            &&& old.len() == es.len()
            &&& newest_first(old.map_values(read)) == es
            &&& forall|i: int|
                0 <= i < es.len() ==> #[trigger] old[i] == write(es[es.len() - 1 - i])
        }),
    decreases es.len(),
{
    let lines = es.map_values(|e: Entry| Some(write(e)));
    let old = oldest_first(lines);
    if es.len() > 0 {
        let rest = es.skip(1);
        assert forall|i: int| 0 <= i < rest.len() implies read(write(#[trigger] rest[i])) == Some(
            rest[i],
        ) by {
            assert(rest[i] == es[i + 1]);
        }
        lemma_written(rest, read, write);
        let later = oldest_first(rest.map_values(|e: Entry| Some(write(e))));
        assert(lines.skip(1) =~= rest.map_values(|e: Entry| Some(write(e))));
        assert(old == later.push(write(es[0])));
        assert(old.map_values(read).drop_last() =~= later.map_values(read));
        assert(old.map_values(read).last() == Some(es[0]));
        assert(seq![es[0]] + rest =~= es);
    } else {
        assert(newest_first(old.map_values(read)) =~= es);
    }
}

/// A line added behind a line feed is one more piece.
proof fn lemma_pieces_append(g: Seq<u8>, l: Seq<u8>)
    requires
        text::pieces(g, LF).len() >= 1,
        text::pieces(g, LF).last().len() == 0,
        forall|j: int| 0 <= j < l.len() ==> #[trigger] l[j] != LF,
    ensures
        text::pieces(g + l, LF) == text::pieces(g, LF).update(
            text::pieces(g, LF).len() - 1,
            l,
        ),
        text::pieces(g + l + seq![LF], LF) == text::pieces(g, LF).update(
            text::pieces(g, LF).len() - 1,
            l,
        ).push(Seq::empty()),
    decreases l.len(),
{
    let p = text::pieces(g, LF);
    if l.len() == 0 {
        assert(g + l =~= g);
        assert(p.last() =~= l);
        assert(p =~= p.update(p.len() - 1, l));
    } else {
        let init = l.drop_last();
        assert forall|j: int| 0 <= j < init.len() implies #[trigger] init[j] != LF by {
            assert(init[j] == l[j]);
        }
        lemma_pieces_append(g, init);
        assert((g + l).drop_last() =~= g + init);
        assert(l[l.len() - 1] != LF);
        assert((g + l).last() == l.last());
        assert(init.push(l.last()) =~= l);
        assert(text::pieces(g + l, LF) =~= p.update(p.len() - 1, l));
    }
    assert((g + l + seq![LF]).drop_last() =~= g + l);
}

/// Lines end with a line feed; two hundred entries are kept, and what holds a
/// line feed, or ends in a carriage return, is no line.
pub proof fn lines_end_with_line_feeds(l: Seq<u8>)
    ensures
        LF == 10 && CR == 13 && KEEP == 200,
        is_line(l) <==> !l.contains(10u8) && (l.len() > 0 ==> l.last() != 13),
        is_ended(l) <==> l.len() == 0 || l.last() == 10,
{
    if is_line(l) && l.contains(10u8) {
        let j = choose|j: int| 0 <= j < l.len() && l[j] == 10u8;
        assert(l[j] != LF);
    }
    if !l.contains(10u8) {
        assert forall|j: int| 0 <= j < l.len() implies #[trigger] l[j] != LF by {
            assert(l.contains(l[j]));
        }
    }
}

/// A carriage return before the line feed is not part of the line, and a line
/// that was not ended is one too.
pub proof fn carriage_returns_go(raw: Seq<u8>, line: Seq<u8>)
    requires
        raw.len() == 0 || raw.last() == 10,
        !line.contains(10u8),
    ensures
        without_return(line.push(13)) == line,
        line.len() > 0 && line.last() != 13 ==> without_return(line) == line,
        lines_of(raw + line + seq![13u8, 10u8]) == complete_lines(raw).push(line),
        line.len() > 0 ==> lines_of(raw + line) == complete_lines(raw).push(line),
        lines_of(raw) == complete_lines(raw),
{
    let p = text::pieces(raw, LF);
    lemma_ended(raw);
    let c = line.push(13);
    assert(c.drop_last() =~= line);
    assert forall|j: int| 0 <= j < line.len() implies #[trigger] line[j] != LF by {
        assert(line.contains(line[j]));
    }
    assert forall|j: int| 0 <= j < c.len() implies #[trigger] c[j] != LF by {
        if j < line.len() {
            assert(c[j] == line[j]);
        }
    }
    lemma_pieces_append(raw, c);
    lemma_pieces_append(raw, line);
    assert(raw + line + seq![13u8, 10u8] =~= raw + c + seq![LF]);
    assert(lines_of(raw) =~= complete_lines(raw));
    assert(lines_of(raw + c + seq![LF]) =~= complete_lines(raw).push(line));
    if line.len() > 0 {
        assert(lines_of(raw + line) =~= complete_lines(raw).push(line));
    }
}

/// What was added last is shown first; lines that cannot be read are left out,
/// and every other is shown.
pub proof fn what_was_added_last_is_shown_first(
    a: Seq<Option<Entry>>,
    b: Seq<Option<Entry>>,
    e: Entry,
)
    ensures
        newest_first(a + b) == newest_first(b) + newest_first(a),
        newest_first(seq![Some(e)]) == seq![e],
        newest_first(seq![None::<Entry>]).len() == 0,
    decreases b.len(),
{
    let none = Seq::<Option<Entry>>::empty();
    assert(seq![Some(e)].drop_last() =~= none);
    assert(seq![None::<Entry>].drop_last() =~= none);
    assert(newest_first(none) =~= Seq::empty());
    assert(newest_first(seq![Some(e)]) =~= seq![e]);
    if b.len() == 0 {
        assert(a + b =~= a);
        assert(newest_first(b) + newest_first(a) =~= newest_first(a));
    } else {
        what_was_added_last_is_shown_first(a, b.drop_last(), e);
        assert((a + b).drop_last() =~= a + b.drop_last());
        assert((a + b).last() == b.last());
        assert(newest_first(a + b) =~= newest_first(b) + newest_first(a));
    }
}

/// A file written anew holds the lines given, each with its line feed, those
/// given last first; one that is not there leaves nothing behind.
pub proof fn files_are_written_from_the_end(
    a: Seq<Option<Seq<u8>>>,
    b: Seq<Option<Seq<u8>>>,
    l: Seq<u8>,
)
    ensures
        file_of(a + b) == file_of(b) + file_of(a),
        file_of(seq![Some(l)]) == l + seq![10u8],
        file_of(seq![None::<Seq<u8>>]).len() == 0,
        oldest_first(a + b) == oldest_first(b) + oldest_first(a),
        oldest_first(seq![Some(l)]) == seq![l],
        oldest_first(seq![None::<Seq<u8>>]).len() == 0,
    decreases a.len(),
{
    let none = Seq::<Option<Seq<u8>>>::empty();
    assert(seq![Some(l)].skip(1) =~= none);
    assert(seq![None::<Seq<u8>>].skip(1) =~= none);
    assert(file_of(none) =~= Seq::empty());
    assert(oldest_first(none) =~= Seq::empty());
    assert(file_of(seq![Some(l)]) =~= l + seq![10u8]);
    assert(oldest_first(seq![Some(l)]) =~= seq![l]);
    if a.len() == 0 {
        assert(a + b =~= b);
        assert(file_of(b) + file_of(a) =~= file_of(b));
        assert(oldest_first(b) + oldest_first(a) =~= oldest_first(b));
    } else {
        files_are_written_from_the_end(a.skip(1), b, l);
        assert((a + b).skip(1) =~= a.skip(1) + b);
        assert((a + b)[0] == a[0]);
        assert(file_of(a + b) =~= file_of(b) + file_of(a));
        assert(oldest_first(a + b) =~= oldest_first(b) + oldest_first(a));
    }
}

/// Lists of texts are taken text by text.
pub proof fn lists_are_taken_one_by_one(
    v: Seq<String>,
    w: Seq<Vec<u8>>,
    o: Seq<Option<String>>,
    i: int,
)
    ensures
        text_views(v).len() == v.len() && byte_views(w).len() == w.len() && encoded(o).len()
            == o.len(),
        0 <= i < v.len() ==> text_views(v)[i] == v[i]@,
        0 <= i < w.len() ==> byte_views(w)[i] == w[i]@,
        0 <= i < o.len() ==> (o[i] matches Some(l) ==> encoded(o)[i] == Some(encode_utf8(l@))),
        0 <= i < o.len() && o[i] is None ==> encoded(o)[i] is None,
{
}

} // verus!
