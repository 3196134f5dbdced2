//! What a link and the headers of its answer say.

use crate::foreign;
use crate::text::{self, Class};
use vstd::prelude::*;
use vstd::string::*;
use vstd::utf8::*;

verus! {

/// The host that a link names, with its port: what stands between `://` and
/// the first `/`, `?` or `#`.
pub open spec fn host(url: Seq<char>) -> Seq<char> {
    let rest = match text::find_text(url, "://"@) {
        Some(i) => {
            let after = url.skip(i + "://"@.len());
            match text::find_text(after, "://"@) {
                Some(j) => after.take(j),
                None => after,
            }
        },
        None => url,
    };
    text::before(rest, Class::Three('/', '?', '#'))
}

/// The host that a link names.
pub fn host_of(url: &str) -> (r: String)
    ensures
        r@ == host(url@),
{
    let v = text::to_chars(url);
    let sep = "://";
    let rest = match text::search(&v, sep) {
        Some(i) => {
            let n: usize = sep.unicode_len();
            let after = text::slice(&v, i + n, v.len());
            assert(after@ =~= v@.skip(i + "://"@.len()));
            match text::search(&after, sep) {
                Some(j) => {
                    let r = text::slice(&after, 0, j);
                    assert(r@ =~= after@.take(j as int));
                    r
                },
                None => after,
            }
        },
        None => v,
    };
    text::from_chars(&text::cut_before(&rest, Class::Three('/', '?', '#')))
}

/// The total in a `Content-Range` header: `bytes 0-0/104857600` gives
/// 104857600. Zero, `*` and anything else give nothing.
pub open spec fn range_total(v: Seq<char>) -> Option<nat> {
    match text::parsed(text::trim(text::after_last(v, '/'), Class::White), u64::MAX as nat) {
        Some(n) => if n > 0 { Some(n) } else { None },
        None => None,
    }
}

/// The total in a `Content-Range` header.
pub fn content_range_total(v: &str) -> (r: Option<u64>)
    ensures
        match r {
            Some(n) => range_total(v@) == Some(n as nat),
            None => range_total(v@) is None,
        },
{
    let c = text::to_chars(v);
    let t = text::strip(&text::cut_after_last(&c, '/'), Class::White);
    match text::parse_u64(&t) {
        Some(n) => if n > 0 { Some(n) } else { None },
        None => None,
    }
}

/// The value of a hexadecimal digit.
pub open spec fn hex_value(b: u8) -> Option<u8> {
    if 48 <= b <= 57 {
        Some((b - 48) as u8)
    } else if 65 <= b <= 70 {
        Some((b - 55) as u8)
    } else if 97 <= b <= 102 {
        Some((b - 87) as u8)
    } else {
        None
    }
}

/// The byte that two characters after a `%` stand for: two hexadecimal digits,
/// or a `+` and one.
pub open spec fn hex_pair(a: u8, b: u8) -> Option<u8> {
    match hex_value(b) {
        Some(lo) => if a == 43 {
            Some(lo)
        } else {
            match hex_value(a) {
                Some(hi) => Some((hi * 16 + lo) as u8),
                None => None,
            }
        },
        None => None,
    }
}

/// The bytes with every `%` and the pair after it replaced by the byte they
/// stand for. A `%` without such a pair stays.
pub open spec fn unescaped(b: Seq<u8>) -> Seq<u8>
    decreases b.len(),
{
    if b.len() == 0 {
        b
    } else if b[0] == 37 && b.len() > 2 && hex_pair(b[1], b[2]) is Some {
        seq![hex_pair(b[1], b[2])->0] + unescaped(b.skip(3))
    } else {
        seq![b[0]] + unescaped(b.skip(1))
    }
}

/// No `%` is followed by two bytes that end in the middle of a character.
pub open spec fn pairs_are_whole(b: Seq<u8>) -> bool {
    forall|i: int|
        0 <= i && i + 3 < b.len() && #[trigger] b[i] == 37 ==> !is_continuation_byte(b[i + 3])
}

/// `s` can be percent-decoded.
pub open spec fn decodable(s: Seq<char>) -> bool {
    pairs_are_whole(encode_utf8(s))
}

/// `s` percent-decoded, as `String::from_utf8_lossy` reads the bytes.
pub open spec fn decoded(s: Seq<char>) -> Seq<char> {
    foreign::lossy(unescaped(encode_utf8(s)))
}

fn hex_digit(b: u8) -> (r: Option<u8>)
    ensures
        r == hex_value(b),
        r matches Some(v) ==> v < 16,
{
    if 48 <= b && b <= 57 {
        Some(b - 48)
    } else if 65 <= b && b <= 70 {
        Some(b - 55)
    } else if 97 <= b && b <= 102 {
        Some(b - 87)
    } else {
        None
    }
}

fn hex_byte(a: u8, b: u8) -> (r: Option<u8>)
    ensures
        r == hex_pair(a, b),
{
    match hex_digit(b) {
        Some(lo) => if a == 43 {
            Some(lo)
        } else {
            match hex_digit(a) {
                Some(hi) => Some(hi * 16 + lo),
                None => None,
            }
        },
        None => None,
    }
}

/// Whether `s` can be percent-decoded: no `%` is followed by two bytes that
/// end in the middle of a character.
pub fn is_decodable(s: &str) -> (r: bool)
    ensures
        r == decodable(s@),
{
    let b = s.as_bytes();
    let mut i: usize = 0;
    while i < b.len()
        invariant
            b@ == encode_utf8(s@),
            i <= b@.len(),
            forall|j: int|
                0 <= j < i && j + 3 < b@.len() && #[trigger] b@[j] == 37 ==> !is_continuation_byte(
                    b@[j + 3],
                ),
        decreases b@.len() - i,
    {
        if b[i] == 37 && b.len() - i > 3 && b[i + 3] >= 0x80 && b[i + 3] <= 0xbf {
            assert(is_continuation_byte(b@[i + 3]));
            return false;
        }
        i = i + 1;
    }
    true
}

/// Replaces every `%` and the pair after it by the byte they stand for.
pub fn unescape(b: &[u8]) -> (r: Vec<u8>)
    ensures
        r@ == unescaped(b@),
{
    let mut out: Vec<u8> = Vec::new();
    let mut i: usize = 0;
    assert(b@.skip(0) =~= b@);
    while i < b.len()
        invariant
            i <= b@.len(),
            out@ + unescaped(b@.skip(i as int)) == unescaped(b@),
        decreases b@.len() - i,
    {
        let ghost rest = b@.skip(i as int);
        let ghost before = out@;
        assert(rest[0] == b@[i as int]);
        let mut hit: bool = false;
        if b[i] == 37 && b.len() - i > 2 {
            assert(rest[1] == b@[i + 1] && rest[2] == b@[i + 2]);
            if let Some(x) = hex_byte(b[i + 1], b[i + 2]) {
                out.push(x);
                hit = true;
                assert(rest.skip(3) =~= b@.skip(i + 3));
                assert(out@ + unescaped(b@.skip(i + 3)) =~= before + unescaped(rest));
                i = i + 3;
            }
        }
        if !hit {
            out.push(b[i]);
            assert(rest.skip(1) =~= b@.skip(i + 1));
            assert(out@ + unescaped(b@.skip(i + 1)) =~= before + unescaped(rest));
            i = i + 1;
        }
    }
    assert(out@ + unescaped(b@.skip(i as int)) =~= out@);
    out
}

/// Bytes without a `%` stay as they are.
pub proof fn lemma_nothing_escaped(b: Seq<u8>)
    requires
        forall|i: int| 0 <= i < b.len() ==> #[trigger] b[i] != 37,
    ensures
        unescaped(b) == b,
    decreases b.len(),
{
    if b.len() > 0 {
        assert(b[0] != 37);
        let rest = b.skip(1);
        assert forall|i: int| 0 <= i < rest.len() implies #[trigger] rest[i] != 37 by {
            assert(rest[i] == b[i + 1]);
        }
        lemma_nothing_escaped(rest);
        assert(seq![b[0]] + rest =~= b);
    }
}

/// Percent-decodes a text. One that holds no `%` is returned as it is.
pub fn percent_decode(s: &str) -> (r: String)
    requires
        decodable(s@),
    ensures
        r@ == decoded(s@),
        valid_utf8(unescaped(encode_utf8(s@))) ==> r@ == decode_utf8(unescaped(encode_utf8(s@))),
        (forall|i: int|
            0 <= i < encode_utf8(s@).len() ==> #[trigger] encode_utf8(s@)[i] != 37) ==> r@ == s@,
{
    let out = unescape(s.as_bytes());
    proof {
        let b = encode_utf8(s@);
        if forall|i: int| 0 <= i < b.len() ==> #[trigger] b[i] != 37 {
            lemma_nothing_escaped(b);
            encode_utf8_valid_utf8(s@);
            encode_utf8_decode_utf8(s@);
        }
    }
    foreign::utf8_lossy(&out)
}

/// The last part of a link's path, still percent-encoded.
pub open spec fn last_segment(url: Seq<char>) -> Seq<char> {
    text::after_last(
        text::trim_end(text::before(url, Class::Two('?', '#')), Class::One('/')),
        '/',
    )
}

/// The last part of a link's path, still percent-encoded.
pub fn url_tail(url: &str) -> (r: String)
    ensures
        r@ == last_segment(url@),
{
    let v = text::to_chars(url);
    let no_query = text::cut_before(&v, Class::Two('?', '#'));
    let no_slash = text::strip_end(&no_query, Class::One('/'));
    text::from_chars(&text::cut_after_last(&no_slash, '/'))
}

/// The name that a link proposes for a file: the last part of its path,
/// decoded, or `download` if that is empty.
pub open spec fn url_name(url: Seq<char>) -> Seq<char> {
    let d = decoded(last_segment(url));
    if d.len() == 0 { "download"@ } else { d }
}

/// The name that a link proposes for a file.
pub fn filename_from_url(url: &str) -> (r: String)
    requires
        decodable(last_segment(url@)),
    ensures
        r@ == url_name(url@),
{
    let d = percent_decode(url_tail(url).as_str());
    if d.as_str().unicode_len() == 0 { text::owned("download") } else { d }
}

/// A file name in a `Content-Disposition` header.
#[derive(Debug)]
pub enum Named {
    /// From `filename=`: as it stands.
    Plain(String),
    /// From `filename*=`: percent-encoded.
    Escaped(String),
}

/// What a [`Named`] holds.
pub enum NamedView {
    Plain(Seq<char>),
    Escaped(Seq<char>),
}

impl View for Named {
    type V = NamedView;

    open spec fn view(&self) -> NamedView {
        match self {
            Named::Plain(s) => NamedView::Plain(s@),
            Named::Escaped(s) => NamedView::Escaped(s@),
        }
    }
}

/// What follows the first `c`; all of `s` if there is none.
pub open spec fn past_first(s: Seq<char>, c: char) -> Seq<char> {
    let i = text::first_of(s, Class::One(c));
    if i < s.len() { s.skip(i + 1) } else { s }
}

/// The value in `charset'language'value`: what follows the second quote, or
/// the first where there is only one, or everything where there is none.
pub open spec fn extended_value(s: Seq<char>) -> Seq<char> {
    past_first(past_first(s, '\''), '\'')
}

/// The name that one parameter of the header gives.
pub open spec fn param_name(param: Seq<char>) -> Option<NamedView> {
    let p = text::trim(param, Class::White);
    match text::after_prefix(p, "filename*="@) {
        Some(rest) => Some(
            NamedView::Escaped(extended_value(text::trim(rest, Class::One('"')))),
        ),
        None => match text::after_prefix(p, "filename="@) {
            Some(rest) => Some(NamedView::Plain(text::trim(rest, Class::One('"')))),
            None => None,
        },
    }
}

/// The name that the first parameter with one gives.
pub open spec fn first_name(params: Seq<Seq<char>>) -> Option<NamedView>
    decreases params.len(),
{
    if params.len() == 0 {
        None
    } else if param_name(params[0]) is Some {
        param_name(params[0])
    } else {
        first_name(params.skip(1))
    }
}

/// The name in a `Content-Disposition` header, still encoded.
pub open spec fn disposition(v: Seq<char>) -> Option<NamedView> {
    first_name(text::pieces(v, ';'))
}

/// The name in a `Content-Disposition` header.
pub open spec fn disposition_name(v: Seq<char>) -> Option<Seq<char>> {
    match disposition(v) {
        Some(NamedView::Plain(s)) => Some(s),
        Some(NamedView::Escaped(s)) => Some(decoded(s)),
        None => None,
    }
}

/// The name in the header, if it has one that is percent-encoded, can be
/// decoded.
pub open spec fn disposition_decodable(v: Seq<char>) -> bool {
    match disposition(v) {
        Some(NamedView::Escaped(s)) => decodable(s),
        _ => true,
    }
}

fn cut_past_first(s: &Vec<char>, c: char) -> (r: Vec<char>)
    ensures
        r@ == past_first(s@, c),
{
    let i: usize = text::find(s, Class::One(c));
    let r = if i < s.len() { text::slice(s, i + 1, s.len()) } else { text::slice(s, 0, s.len()) };
    assert(r@ =~= past_first(s@, c));
    r
}

fn name_in_param(param: &Vec<char>) -> (r: Option<Named>)
    ensures
        match r {
            Some(n) => param_name(param@) == Some(n@),
            None => param_name(param@) is None,
        },
{
    let p = text::strip(param, Class::White);
    if let Some(rest) = text::strip_prefix(&p, "filename*=") {
        let t = text::strip(&rest, Class::One('"'));
        let value = cut_past_first(&cut_past_first(&t, '\''), '\'');
        return Some(Named::Escaped(text::from_chars(&value)));
    }
    if let Some(rest) = text::strip_prefix(&p, "filename=") {
        return Some(Named::Plain(text::from_chars(&text::strip(&rest, Class::One('"')))));
    }
    None
}

/// Finds the name in a `Content-Disposition` header, still encoded.
pub fn find_filename(v: &str) -> (r: Option<Named>)
    ensures
        match r {
            Some(n) => disposition(v@) == Some(n@),
            None => disposition(v@) is None,
        },
{
    let c = text::to_chars(v);
    let params = text::split(&c, ';');
    let ghost all = text::pieces(v@, ';');
    let mut i: usize = 0;
    assert(all.skip(0) =~= all);
    while i < params.len()
        invariant
            text::views(params@) == all,
            all == text::pieces(v@, ';'),
            i <= params@.len(),
            first_name(all.skip(i as int)) == first_name(all),
        decreases params@.len() - i,
    {
        assert(all.skip(i as int)[0] == params@[i as int]@);
        assert(all.skip(i as int).skip(1) =~= all.skip(i + 1));
        let n = name_in_param(&params[i]);
        if n.is_some() {
            return n;
        }
        i = i + 1;
    }
    None
}

/// The file name in a `Content-Disposition` header.
pub fn filename_from_disposition(v: &str) -> (r: Option<String>)
    requires
        disposition_decodable(v@),
    ensures
        match r {
            Some(s) => disposition_name(v@) == Some(s@),
            None => disposition_name(v@) is None,
        },
{
    match find_filename(v) {
        Some(Named::Plain(s)) => Some(s),
        Some(Named::Escaped(s)) => Some(percent_decode(s.as_str())),
        None => None,
    }
}

/// Whether the name in a `Content-Disposition` header can be decoded.
pub fn is_disposition_decodable(v: &str) -> (r: bool)
    ensures
        r == disposition_decodable(v@),
{
    match find_filename(v) {
        Some(Named::Escaped(s)) => is_decodable(s.as_str()),
        _ => true,
    }
}

/// What follows `pat` in the first of `parts` that starts with it.
pub open spec fn first_after(parts: Seq<Seq<char>>, pat: Seq<char>) -> Option<Seq<char>>
    decreases parts.len(),
{
    if parts.len() == 0 {
        None
    } else if text::after_prefix(parts[0], pat) is Some {
        text::after_prefix(parts[0], pat)
    } else {
        first_after(parts.skip(1), pat)
    }
}

/// The proxy that a system setting names: `host:port`, or one per protocol as
/// in `http=h:p;https=h:p`, of which that for `https` goes first.
pub open spec fn proxy_host(server: Seq<char>) -> Option<Seq<char>> {
    if text::first_of(server, Class::One('=')) < server.len() {
        let parts = text::pieces(server, ';');
        match first_after(parts, "https="@) {
            Some(p) => Some(p),
            None => first_after(parts, "http="@),
        }
    } else {
        Some(server)
    }
}

/// The address of the system's proxy.
pub open spec fn proxy(enabled: Option<u32>, server: Option<Seq<char>>) -> Option<Seq<char>> {
    if enabled is None || enabled == Some(0u32) || server is None || server->0.len() == 0 {
        None
    } else {
        match proxy_host(server->0) {
            Some(p) => Some(
                if text::find_text(p, "://"@) is Some { p } else { "http://"@ + p },
            ),
            None => None,
        }
    }
}

fn find_after(parts: &Vec<Vec<char>>, pat: &str) -> (r: Option<Vec<char>>)
    ensures
        match r {
            Some(v) => first_after(text::views(parts@), pat@) == Some(v@),
            None => first_after(text::views(parts@), pat@) is None,
        },
{
    let ghost all = text::views(parts@);
    let mut i: usize = 0;
    assert(all.skip(0) =~= all);
    while i < parts.len()
        invariant
            all == text::views(parts@),
            i <= parts@.len(),
            first_after(all.skip(i as int), pat@) == first_after(all, pat@),
        decreases parts@.len() - i,
    {
        assert(all.skip(i as int)[0] == parts@[i as int]@);
        assert(all.skip(i as int).skip(1) =~= all.skip(i + 1));
        let p = text::strip_prefix(&parts[i], pat);
        if p.is_some() {
            return p;
        }
        i = i + 1;
    }
    None
}

/// The address of the system's proxy, from the two settings that describe it:
/// whether it is enabled, and the server. `None` for a setting that is not
/// there.
pub fn system_proxy(enabled: Option<u32>, server: Option<String>) -> (r: Option<String>)
    ensures
        match r {
            Some(p) => proxy(
                enabled,
                match server {
                    Some(s) => Some(s@),
                    None => None,
                },
            ) == Some(p@),
            None => proxy(
                enabled,
                match server {
                    Some(s) => Some(s@),
                    None => None,
                },
            ) is None,
        },
{
    match enabled {
        None => {
            return None;
        },
        Some(n) => {
            if n == 0 {
                return None;
            }
        },
    }
    let server = match server {
        None => {
            return None;
        },
        Some(s) => s,
    };
    let v = text::to_chars(server.as_str());
    if v.len() == 0 {
        return None;
    }
    let eq: usize = text::find(&v, Class::One('='));
    let pick = if eq < v.len() {
        let parts = text::split(&v, ';');
        match find_after(&parts, "https=") {
            Some(p) => p,
            None => match find_after(&parts, "http=") {
                Some(p) => p,
                None => {
                    return None;
                },
            },
        }
    } else {
        v
    };
    let s = text::from_chars(&pick);
    if text::search(&pick, "://").is_some() {
        Some(s)
    } else {
        Some(text::join("http://", s.as_str()))
    }
}

/// The host is what stands between `://` and the next `/`, `?` or `#`,
/// whatever follows; a text without `://` is taken for one that begins with its
/// host.
#[verifier::rlimit(40)]
pub proof fn hosts_are_read(scheme: Seq<char>, h: Seq<char>, rest: Seq<char>)
    requires
        !scheme.contains(':'),
        !h.contains('/') && !h.contains('?') && !h.contains('#'),
        h.len() > 0 ==> h.last() != ':',
        rest.len() > 0 ==> rest[0] == '/' || rest[0] == '?' || rest[0] == '#',
    ensures
        host(scheme + "://"@ + h + rest) == h,
        text::find_text(h + rest, "://"@) is None ==> host(h + rest) == h,
{
    let sep = "://"@;
    reveal_strlit("://");
    let url = scheme + sep + h + rest;
    let after = h + rest;
    assert(url =~= scheme + sep + after);
    lemma_separator_at(scheme, after);
    assert(url.skip(scheme.len() as int + sep.len()) =~= after);
    lemma_host_is_before(h, rest);
    text::the_first_place_is_found(after, sep);
    if let Some(j) = text::find_text(after, sep) {
        let m = h.len() as int;
        let t = after.subrange(j, j + sep.len());
        assert(t[0] == after[j] && t[1] == after[j + 1]);
        assert(sep[0] == ':' && sep[1] == '/');
        if j < m {
            assert(after[j] == h[j]);
            if j + 1 < m {
                assert(after[j + 1] == h[j + 1]);
                assert(h.contains(h[j + 1]));
            }
            assert(false);
        }
        if j == m {
            assert(after[j] == rest[0]);
            assert(false);
        }
        assert(after.take(j) =~= h + rest.take(j - m));
        lemma_host_is_before(h, rest.take(j - m));
    }
}

/// A second `://` ends the host as well.
pub proof fn hosts_end_at_a_second_separator(scheme: Seq<char>, h: Seq<char>, rest: Seq<char>)
    requires
        !scheme.contains(':'),
        !h.contains('/') && !h.contains('?') && !h.contains('#'),
    ensures
        host(scheme + "://"@ + h + "://"@ + rest) == h,
{
    let sep = "://"@;
    let after = h + sep + rest;
    let url = scheme + sep + h + sep + rest;
    assert(url =~= scheme + sep + after);
    lemma_separator_at(scheme, after);
    assert(url.skip(scheme.len() as int + sep.len()) =~= after);
    lemma_separator_at(h, rest);
    assert(after.take(h.len() as int) =~= h);
    lemma_host_is_before(h, Seq::empty());
    assert(h + Seq::<char>::empty() =~= h);
}

/// A separator is found behind a text without a slash, or without a colon.
proof fn lemma_separator_at(a: Seq<char>, rest: Seq<char>)
    requires
        !a.contains('/') || !a.contains(':'),
    ensures
        text::find_text(a + "://"@ + rest, "://"@) == Some(a.len() as int),
    decreases a.len(),
{
    let sep = "://"@;
    reveal_strlit("://");
    let s = a + sep + rest;
    if a.len() == 0 {
        assert(s.subrange(0, sep.len() as int) =~= sep);
    } else {
        let t = a.drop_first();
        assert forall|c: char| t.contains(c) implies a.contains(c) by {
            let i = choose|i: int| 0 <= i < t.len() && t[i] == c;
            assert(a[i + 1] == c);
        }
        lemma_separator_at(t, rest);
        assert(s.drop_first() =~= t + sep + rest);
        assert(!sep.is_prefix_of(s)) by {
            if sep.is_prefix_of(s) {
                let u = s.subrange(0, sep.len() as int);
                assert(u[0] == a[0] && u[1] == s[1]);
                assert(a.contains(a[0]));
                if a.len() > 1 {
                    assert(s[1] == a[1]);
                    assert(a.contains(a[1]));
                } else {
                    assert(s[1] == sep[0]);
                }
            }
        }
    }
}

proof fn lemma_host_is_before(h: Seq<char>, rest: Seq<char>)
    requires
        !h.contains('/') && !h.contains('?') && !h.contains('#'),
        rest.len() > 0 ==> rest[0] == '/' || rest[0] == '?' || rest[0] == '#',
    ensures
        text::before(h + rest, Class::Three('/', '?', '#')) == h,
{
    let k = Class::Three('/', '?', '#');
    assert forall|j: int| 0 <= j < h.len() implies !k.holds(#[trigger] h[j]) by {
        assert(h.contains(h[j]));
    }
    if rest.len() > 0 {
        assert(h + rest =~= h.push(rest[0]) + rest.skip(1));
        text::texts_are_cut_at_the_first(h, rest[0], rest.skip(1), k);
    } else {
        assert(h + rest =~= h);
        text::texts_are_cut_at_the_first(h, '/', rest, k);
    }
}

/// The size of the whole is the number behind the last slash, blanks around it
/// or not; nought and a star are none, nor is anything with another character.
#[verifier::rlimit(40)]
pub proof fn totals_are_read(
    range: Seq<char>,
    p: Seq<char>,
    n: u64,
    q: Seq<char>,
    t: Seq<char>,
    i: int,
)
    requires
        forall|i: int| 0 <= i < p.len() ==> text::is_white(#[trigger] p[i]),
        forall|i: int| 0 <= i < q.len() ==> text::is_white(#[trigger] q[i]),
    ensures
        n > 0 ==> range_total(range.push('/') + (p + text::decimal(n as nat) + q)) == Some(
            n as nat,
        ),
        n == 0 ==> range_total(range.push('/') + (p + text::decimal(n as nat) + q)) is None,
        range_total(range.push('/') + seq!['*']) is None,
        !t.contains('/') && 0 <= i < t.len() && !text::is_digit(t[i]) && !text::is_white(t[i])
            && t[i] != '+' ==> range_total(range.push('/') + t) is None && range_total(t) is None,
{
    if !t.contains('/') && 0 <= i < t.len() && !text::is_digit(t[i]) && !text::is_white(t[i]) && t[i]
        != '+' {
        text::texts_are_cut_after_the_last(range, '/', t);
        text::texts_with_other_characters_are_no_numbers(t, i);
    }
    let d = text::decimal(n as nat);
    let w = p + d + q;
    text::lemma_decimal(n as nat);
    text::number_reads_back(n as nat, u64::MAX as nat);
    assert(text::is_digit(d[0]) && text::is_digit(d[d.len() - 1]));
    assert forall|j: int| 0 <= j < w.len() implies w[j] != '/' by {
        if j < p.len() {
            assert(text::is_white(p[j]));
        } else if j < p.len() + d.len() {
            assert(text::is_digit(d[j - p.len()]));
        } else {
            assert(text::is_white(q[j - p.len() - d.len()]));
        }
    }
    text::texts_are_cut_after_the_last(range, '/', w);
    text::only_the_ends_are_trimmed(p, d, q, Class::White);
    let star = seq!['*'];
    text::texts_are_cut_after_the_last(range, '/', star);
    let none = Seq::<char>::empty();
    text::only_the_ends_are_trimmed(none, star, none, Class::White);
    assert(none + star + none =~= star);
    text::only_digits_are_read(star, 0, u64::MAX as nat, 0);
}

/// The byte that writes the hexadecimal digit for `n`, in large or small
/// letters.
pub open spec fn hex_byte_of(n: int, large: bool) -> u8 {
    if n < 10 { (48 + n) as u8 } else if large { (65 + n - 10) as u8 } else { (97 + n - 10) as u8 }
}

/// A `%` and two hexadecimal digits, in large letters or small ones, stand for
/// the byte of that number, and so does a `%`, a plus sign and one digit; every
/// other byte stands for itself.
pub proof fn escapes_stand_for_bytes(
    x: u8,
    large: bool,
    larger: bool,
    c: u8,
    rest: Seq<u8>,
)
    ensures
        unescaped(
            seq![37u8, hex_byte_of(x as int / 16, large), hex_byte_of(x as int % 16, larger)] + rest,
        ) == seq![x] + unescaped(rest),
        c != 37 ==> unescaped(seq![c] + rest) == seq![c] + unescaped(rest),
        unescaped(seq![37u8, 43u8, hex_byte_of(x as int % 16, large)] + rest) == seq![x % 16]
            + unescaped(rest),
        rest.len() < 2 ==> unescaped(seq![37u8] + rest) == seq![37u8] + rest,
        rest.len() >= 2 && !is_hex(rest[1]) ==> unescaped(seq![37u8] + rest) == seq![37u8]
            + unescaped(rest),
        rest.len() >= 2 && !is_hex(rest[0]) && rest[0] != 43 ==> unescaped(seq![37u8] + rest)
            == seq![37u8] + unescaped(rest),
        unescaped(Seq::empty()).len() == 0,
{
    let a = hex_byte_of(x as int / 16, large);
    let b = hex_byte_of(x as int % 16, larger);
    let s = seq![37u8, a, b] + rest;
    assert(s[0] == 37 && s[1] == a && s[2] == b);
    assert(s.skip(3) =~= rest);
    assert(hex_value(a) == Some((x as int / 16) as u8));
    assert(hex_value(b) == Some((x as int % 16) as u8));
    assert(hex_pair(a, b) == Some(x));
    let e = hex_byte_of(x as int % 16, large);
    let v = seq![37u8, 43u8, e] + rest;
    assert(v[0] == 37 && v[1] == 43 && v[2] == e);
    assert(v.skip(3) =~= rest);
    assert(hex_value(e) == Some((x as int % 16) as u8));
    let t = seq![c] + rest;
    assert(t[0] == c && t.skip(1) =~= rest);
    let u = seq![37u8] + rest;
    assert(u[0] == 37 && u.skip(1) =~= rest);
    if rest.len() >= 2 {
        assert(u[1] == rest[0] && u[2] == rest[1]);
    } else {
        lemma_short(rest);
    }
}

/// The byte writes a hexadecimal digit.
pub open spec fn is_hex(b: u8) -> bool {
    48 <= b <= 57 || 65 <= b <= 70 || 97 <= b <= 102
}

proof fn lemma_short(rest: Seq<u8>)
    requires
        rest.len() < 2,
    ensures
        unescaped(rest) == rest,
{
    if rest.len() == 1 {
        assert(rest.skip(1) =~= Seq::empty());
        assert(unescaped(rest.skip(1)) =~= Seq::empty());
        assert(unescaped(rest) =~= rest);
    }
}

/// Bytes escaped one by one are read back as they were.
pub proof fn escaped_bytes_are_read_back(b: Seq<u8>, large: bool)
    ensures
        unescaped(escaped(b, large)) == b,
    decreases b.len(),
{
    if b.len() == 0 {
        assert(escaped(b, large) =~= Seq::empty());
        assert(b =~= Seq::empty());
    } else {
        escaped_bytes_are_read_back(b.skip(1), large);
        escapes_stand_for_bytes(b[0], large, large, 0, escaped(b.skip(1), large));
        assert(seq![b[0]] + b.skip(1) =~= b);
    }
}

/// Every byte as a `%` and two hexadecimal digits.
pub open spec fn escaped(b: Seq<u8>, large: bool) -> Seq<u8>
    decreases b.len(),
{
    if b.len() == 0 {
        Seq::empty()
    } else {
        seq![
            37u8,
            hex_byte_of(b[0] as int / 16, large),
            hex_byte_of(b[0] as int % 16, large),
        ] + escaped(b.skip(1), large)
    }
}

/// Bytes of ASCII alone can always be decoded. Bytes cannot in which a `%` is
/// followed by two bytes and then by the middle of a character.
pub proof fn plain_texts_can_be_decoded(b: Seq<u8>, i: int)
    ensures
        (forall|j: int| 0 <= j < b.len() ==> (#[trigger] b[j]) < 128) ==> pairs_are_whole(b),
        0 <= i && i + 3 < b.len() && b[i] == 37 && 128 <= b[i + 3] < 192 ==> !pairs_are_whole(b),
        0 <= i < b.len() && (forall|j: int| 0 <= j < b.len() ==> (#[trigger] b[j]) != 37)
            ==> pairs_are_whole(b),
{
}

/// The last part of a link's path is what stands behind its last slash, but
/// for slashes at its very end, before any `?` or `#`.
#[verifier::rlimit(40)]
pub proof fn the_last_part_of_a_path_is_found(
    p: Seq<char>,
    tail: Seq<char>,
    slashes: Seq<char>,
    rest: Seq<char>,
)
    requires
        !p.contains('?') && !p.contains('#'),
        !tail.contains('/') && !tail.contains('?') && !tail.contains('#'),
        tail.len() > 0,
        forall|i: int| 0 <= i < slashes.len() ==> (#[trigger] slashes[i]) == '/',
        rest.len() > 0 ==> rest[0] == '?' || rest[0] == '#',
    ensures
        last_segment(p.push('/') + tail + slashes + rest) == tail,
        last_segment(tail + slashes + rest) == tail,
        last_segment(slashes + rest).len() == 0,
{
    let k = Class::Two('?', '#');
    let a = p.push('/') + tail;
    assert forall|i: int| 0 <= i < (a + slashes).len() implies !k.holds(
        #[trigger] (a + slashes)[i],
    ) by {
        if i < p.len() {
            assert(p.contains(p[i]));
        } else if p.len() < i < a.len() {
            assert(tail.contains(tail[i - p.len() - 1]));
        }
    }
    assert forall|i: int| 0 <= i < (tail + slashes).len() implies !k.holds(
        #[trigger] (tail + slashes)[i],
    ) by {
        if i < tail.len() {
            assert(tail.contains(tail[i]));
        }
    }
    lemma_before_query(a + slashes, rest);
    lemma_before_query(tail + slashes, rest);
    assert(tail.contains(tail[tail.len() - 1]));
    assert(a.last() == tail.last());
    lemma_slashes_off(a, slashes);
    lemma_slashes_off(tail, slashes);
    lemma_before_query(slashes, rest);
    text::only_the_ends_are_trimmed(slashes, Seq::empty(), slashes, Class::One('/'));
    assert(Seq::<char>::empty() + slashes =~= slashes);
    text::texts_are_cut_after_the_last(p, '/', tail);
}

proof fn lemma_slashes_off(a: Seq<char>, slashes: Seq<char>)
    requires
        a.len() > 0,
        a.last() != '/',
        forall|i: int| 0 <= i < slashes.len() ==> (#[trigger] slashes[i]) == '/',
    ensures
        text::trim_end(a + slashes, Class::One('/')) == a,
    decreases slashes.len(),
{
    if slashes.len() == 0 {
        assert(a + slashes =~= a);
    } else {
        lemma_slashes_off(a, slashes.drop_last());
        assert((a + slashes).drop_last() =~= a + slashes.drop_last());
        assert((a + slashes).last() == slashes.last());
    }
}

proof fn lemma_before_query(a: Seq<char>, rest: Seq<char>)
    requires
        forall|i: int| 0 <= i < a.len() ==> !Class::Two('?', '#').holds(#[trigger] a[i]),
        rest.len() > 0 ==> rest[0] == '?' || rest[0] == '#',
    ensures
        text::before(a + rest, Class::Two('?', '#')) == a,
{
    let k = Class::Two('?', '#');
    if rest.len() > 0 {
        assert(a + rest =~= a.push(rest[0]) + rest.skip(1));
        text::texts_are_cut_at_the_first(a, rest[0], rest.skip(1), k);
    } else {
        assert(a + rest =~= a);
        text::texts_are_cut_at_the_first(a, '?', rest, k);
    }
}

/// A link proposes the last part of its path, decoded; only where that is
/// nothing does it propose a name of its own.
pub proof fn links_propose_names(url: Seq<char>)
    ensures
        decoded(last_segment(url)).len() > 0 ==> url_name(url) == decoded(last_segment(url)),
        decoded(last_segment(url)).len() == 0 ==> url_name(url) == "download"@,
{
}

/// A parameter names a file as it stands if it begins with `filename=`, quotes
/// around the name or not and blanks around it all; another names none.
pub proof fn names_are_read_from_parameters(
    p: Seq<char>,
    lq: Seq<char>,
    t: Seq<char>,
    rq: Seq<char>,
    q: Seq<char>,
)
    requires
        forall|i: int| 0 <= i < p.len() ==> text::is_white(#[trigger] p[i]),
        forall|i: int| 0 <= i < q.len() ==> text::is_white(#[trigger] q[i]),
        forall|i: int| 0 <= i < lq.len() ==> (#[trigger] lq[i]) == '"',
        forall|i: int| 0 <= i < rq.len() ==> (#[trigger] rq[i]) == '"',
        t.len() > 0 ==> t[0] != '"' && t.last() != '"',
        rq.len() > 0 || t.len() > 0 && !text::is_white(t.last()),
    ensures
        param_name(p + ("filename="@ + (lq + t + rq)) + q) == Some(NamedView::Plain(t)),
{
    let key = "filename="@;
    reveal_strlit("filename=");
    let quoted = lq + t + rq;
    let a = key + quoted;
    assert(a[0] == 'f');
    assert(a.last() == if rq.len() > 0 { rq.last() } else { t.last() });
    text::only_the_ends_are_trimmed(p, a, q, Class::White);
    text::beginnings_and_ends_come_off(key, quoted, a);
    lemma_not_extended(quoted);
    text::only_the_ends_are_trimmed(lq, t, rq, Class::One('"'));
}

proof fn lemma_not_extended(rest: Seq<char>)
    ensures
        text::after_prefix("filename="@ + rest, "filename*="@) is None,
{
    reveal_strlit("filename=");
    reveal_strlit("filename*=");
    let s = "filename="@ + rest;
    let star = "filename*="@;
    if star.is_prefix_of(s) {
        assert(star[8] == '*');
        assert(s.subrange(0, star.len() as int)[8] == s[8]);
        assert(s[8] == '=');
    }
}

/// A parameter that begins with `filename*=` gives its name percent-encoded,
/// behind the character set and the language with a quote each.
#[verifier::rlimit(40)]
pub proof fn encoded_names_are_read_from_parameters(
    p: Seq<char>,
    lq: Seq<char>,
    charset: Seq<char>,
    language: Seq<char>,
    t: Seq<char>,
    rq: Seq<char>,
    q: Seq<char>,
)
    requires
        forall|i: int| 0 <= i < p.len() ==> text::is_white(#[trigger] p[i]),
        forall|i: int| 0 <= i < q.len() ==> text::is_white(#[trigger] q[i]),
        !charset.contains('\'') && !language.contains('\''),
        charset.len() > 0 ==> charset[0] != '"',
        t.len() > 0 ==> t.last() != '"' && !text::is_white(t.last()),
        forall|i: int| 0 <= i < lq.len() ==> (#[trigger] lq[i]) == '"',
        forall|i: int| 0 <= i < rq.len() ==> (#[trigger] rq[i]) == '"',
    ensures
        param_name(
            p + ("filename*="@ + (lq + (charset.push('\'') + (language.push('\'') + t)) + rq)) + q,
        ) == Some(NamedView::Escaped(t)),
        extended_value(charset.push('\'') + (language.push('\'') + t)) == t,
        extended_value(charset) == charset,
        extended_value(charset.push('\'') + language) == language,
{
    let key = "filename*="@;
    reveal_strlit("filename*=");
    let inner = language.push('\'') + t;
    let v = charset.push('\'') + inner;
    lemma_past_first(charset, '\'', inner);
    lemma_past_first(language, '\'', t);
    lemma_past_first(charset, '\'', language);
    let quoted = lq + v + rq;
    let a = key + quoted;
    assert(a[0] == 'f');
    assert(v.last() == if t.len() > 0 { t.last() } else { '\'' });
    assert(a.last() == if rq.len() > 0 { rq.last() } else { v.last() });
    text::only_the_ends_are_trimmed(p, a, q, Class::White);
    text::beginnings_and_ends_come_off(key, quoted, a);
    assert(v[0] == if charset.len() > 0 { charset[0] } else { '\'' });
    text::only_the_ends_are_trimmed(lq, v, rq, Class::One('"'));
}

proof fn lemma_past_first(a: Seq<char>, c: char, b: Seq<char>)
    requires
        !a.contains(c),
    ensures
        past_first(a.push(c) + b, c) == b,
        past_first(a, c) == a,
{
    let k = Class::One(c);
    assert forall|i: int| 0 <= i < a.len() implies !k.holds(#[trigger] a[i]) by {
        assert(a.contains(a[i]));
    }
    text::texts_are_cut_at_the_first(a, c, b, k);
    assert((a.push(c) + b).skip(a.len() as int + 1) =~= b);
}

/// A parameter that begins otherwise names no file.
pub proof fn other_parameters_name_nothing(param: Seq<char>)
    ensures
        !"filename="@.is_prefix_of(text::trim(param, Class::White)) && !"filename*="@.is_prefix_of(
            text::trim(param, Class::White),
        ) ==> param_name(param) is None,
{
}

/// Of the parameters of a header the first with a name gives it: one that is
/// put behind another counts only if there is no name before it.
pub proof fn the_first_name_counts(a: Seq<char>, b: Seq<char>)
    requires
        !b.contains(';'),
    ensures
        disposition(b) == param_name(b),
        disposition(a) is Some ==> disposition(a.push(';') + b) == disposition(a),
        disposition(a) is None ==> disposition(a.push(';') + b) == param_name(b),
{
    text::pieces_come_apart(a, ';', b);
    let p = text::pieces(a, ';');
    lemma_first_name_push(p, b);
    let none = Seq::<Seq<char>>::empty();
    lemma_first_name_push(none, b);
    assert(none.push(b) =~= seq![b]);
}

proof fn lemma_first_name_push(p: Seq<Seq<char>>, b: Seq<char>)
    ensures
        first_name(p.push(b)) == if first_name(p) is Some { first_name(p) } else { param_name(b) },
    decreases p.len(),
{
    let s = p.push(b);
    assert(s[0] == if p.len() > 0 { p[0] } else { b });
    if p.len() == 0 {
        assert(s.skip(1) =~= p);
    } else {
        assert(s.skip(1) =~= p.skip(1).push(b));
        lemma_first_name_push(p.skip(1), b);
    }
}

/// The name in a header is the one found there: as it stands, or decoded if it
/// was encoded. Only an encoded one may be impossible to decode.
pub proof fn only_encoded_names_are_decoded(v: Seq<char>)
    ensures
        disposition(v) matches Some(NamedView::Plain(s)) ==> disposition_name(v) == Some(s)
            && disposition_decodable(v),
        disposition(v) matches Some(NamedView::Escaped(s)) ==> disposition_name(v) == Some(
            decoded(s),
        ) && disposition_decodable(v) == decodable(s),
        disposition(v) is None ==> disposition_name(v) is None && disposition_decodable(v),
{
}

/// What follows a key is found in the first part that begins with it.
pub proof fn the_first_part_with_a_key_is_found(
    parts: Seq<Seq<char>>,
    key: Seq<char>,
    value: Seq<char>,
    i: int,
)
    requires
        0 <= i < parts.len(),
        parts[i] == key + value,
        forall|j: int| 0 <= j < i ==> !key.is_prefix_of(#[trigger] parts[j]),
    ensures
        first_after(parts, key) == Some(value),
    decreases parts.len(),
{
    if i == 0 {
        text::beginnings_and_ends_come_off(key, value, parts[0]);
    } else {
        assert(!key.is_prefix_of(parts[0]));
        let rest = parts.skip(1);
        assert forall|j: int| 0 <= j < i - 1 implies !key.is_prefix_of(#[trigger] rest[j]) by {
            assert(rest[j] == parts[j + 1]);
        }
        the_first_part_with_a_key_is_found(rest, key, value, i - 1);
    }
}

/// Where no part begins with a key nothing follows it.
pub proof fn missing_keys_are_not_found(parts: Seq<Seq<char>>, key: Seq<char>)
    requires
        forall|j: int| 0 <= j < parts.len() ==> !key.is_prefix_of(#[trigger] parts[j]),
    ensures
        first_after(parts, key) is None,
    decreases parts.len(),
{
    if parts.len() > 0 {
        assert(!key.is_prefix_of(parts[0]));
        let rest = parts.skip(1);
        assert forall|j: int| 0 <= j < rest.len() implies !key.is_prefix_of(#[trigger] rest[j]) by {
            assert(rest[j] == parts[j + 1]);
        }
        missing_keys_are_not_found(rest, key);
    }
}

/// A system proxy is used if it is enabled and named. A server without an
/// equals sign is the proxy itself; it is spoken to over HTTP unless it says
/// otherwise.
pub proof fn enabled_proxies_are_used(enabled: Option<u32>, server: Seq<char>)
    ensures
        enabled is None || enabled == Some(0u32) ==> proxy(enabled, Some(server)) is None,
        proxy(enabled, None) is None,
        server.len() == 0 ==> proxy(enabled, Some(server)) is None,
        (enabled matches Some(n) && n > 0) && server.len() > 0 && !server.contains('=') ==> {
            let named = text::find_text(server, "://"@) is Some;
            &&& named ==> proxy(enabled, Some(server)) == Some(server)
            &&& !named ==> proxy(enabled, Some(server)) == Some("http://"@ + server)
        },
{
    if !server.contains('=') {
        assert forall|i: int| 0 <= i < server.len() implies !Class::One('=').holds(
            #[trigger] server[i],
        ) by {
            assert(server.contains(server[i]));
        }
        text::texts_are_cut_at_the_first(server, '=', server, Class::One('='));
    }
}

/// Where the system names a proxy for each protocol, the one for HTTPS is used
/// if there is one, else the one for HTTP, else none.
pub proof fn secure_proxies_go_first(enabled: u32, server: Seq<char>, i: int)
    requires
        enabled > 0,
        0 <= i < server.len(),
        server[i] == '=',
    ensures
        ({
            let parts = text::pieces(server, ';');
            let secure = first_after(parts, "https="@);
            let plain = first_after(parts, "http="@);
            let used = proxy(Some(enabled), Some(server));
            let p = if secure is Some { secure->0 } else { plain->0 };
            let named = text::find_text(p, "://"@) is Some;
            &&& secure is None && plain is None ==> used is None
            &&& (secure is Some || plain is Some) && named ==> used == Some(p)
            &&& (secure is Some || plain is Some) && !named ==> used == Some("http://"@ + p)
        }),
{
    text::lemma_first_of_is(server, Class::One('='));
}

} // verus!
