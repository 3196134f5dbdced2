//! New versions: which release is newer, where its installer is, whether what
//! was downloaded is what was published, and how to install it.

use crate::foreign;
use crate::probe::opt_view;
use crate::text::{self, Class};
use vstd::prelude::*;
use vstd::string::*;

verus! {

/// The version of this program.
pub const VERSION: &'static str = "0.10.0";

/// The installer among the files of a release.
pub const SETUP_NAME: &'static str = "mdm-setup.exe";

/// Seconds between two looks for a new release.
pub const CHECK_EVERY: u64 = 6 * 3600;

/// A release that is newer than this program.
#[derive(Debug)]
pub struct UpdateInfo {
    pub version: String,
    pub url: String,
    /// The SHA-256 hash of the installer, in hexadecimal, if it was published.
    pub sha256: Option<String>,
}

/// The three numbers of a version such as `v1.2.3`.
pub open spec fn version_of(v: Seq<char>) -> Option<(u64, u64, u64)> {
    let t = text::trim_start(text::trim(v, Class::White), Class::One('v'));
    let p = text::pieces(t, '.');
    let max = u64::MAX as nat;
    if p.len() >= 3 && text::parsed(p[0], max) is Some && text::parsed(p[1], max) is Some
        && text::parsed(p[2], max) is Some {
        Some(
            (
                text::parsed(p[0], max)->0 as u64,
                text::parsed(p[1], max)->0 as u64,
                text::parsed(p[2], max)->0 as u64,
            ),
        )
    } else {
        None
    }
}

/// Reads a version: `v1.2.3` gives `(1, 2, 3)`.
pub fn parse_ver(v: &str) -> (r: Option<(u64, u64, u64)>)
    ensures
        r == version_of(v@),
{
    let t = text::strip_start(
        &text::strip(&text::to_chars(v), Class::White),
        Class::One('v'),
    );
    let p = text::split(&t, '.');
    let ghost all = text::pieces(t@, '.');
    if p.len() < 3 {
        return None;
    }
    assert(p@[0]@ == all[0] && p@[1]@ == all[1] && p@[2]@ == all[2]);
    match (text::parse_u64(&p[0]), text::parse_u64(&p[1]), text::parse_u64(&p[2])) {
        (Some(a), Some(b), Some(c)) => Some((a, b, c)),
        _ => None,
    }
}

/// The version of this program can be read.
pub proof fn own_version_can_be_read()
    ensures
        version_of(VERSION@) == Some((0u64, 10u64, 0u64)),
{
    reveal_strlit("0.10.0");
    let v = VERSION@;
    assert(v =~= seq!['0', '.', '1', '0', '.', '0']);
    assert(text::trim(v, Class::White) == v);
    assert(text::trim_start(v, Class::One('v')) == v);
    let s1 = seq!['0'];
    let s2 = seq!['0', '.'];
    let s3 = seq!['0', '.', '1'];
    let s4 = seq!['0', '.', '1', '0'];
    let s5 = seq!['0', '.', '1', '0', '.'];
    assert(s1.drop_last() =~= Seq::empty());
    assert(s2.drop_last() =~= s1);
    assert(s3.drop_last() =~= s2);
    assert(s4.drop_last() =~= s3);
    assert(s5.drop_last() =~= s4);
    assert(v.drop_last() =~= s5);
    let none = Seq::<char>::empty();
    assert(none.push('0') =~= seq!['0']);
    assert(none.push('1') =~= seq!['1']);
    assert(seq!['1'].push('0') =~= seq!['1', '0']);
    assert(text::pieces(none, '.') =~= seq![none]);
    assert(text::pieces(s1, '.') =~= seq![seq!['0']]);
    assert(text::pieces(s2, '.') =~= seq![seq!['0'], none]);
    assert(text::pieces(s3, '.') =~= seq![seq!['0'], seq!['1']]);
    assert(text::pieces(s4, '.') =~= seq![seq!['0'], seq!['1', '0']]);
    assert(text::pieces(s5, '.') =~= seq![seq!['0'], seq!['1', '0'], none]);
    assert(text::pieces(v, '.') =~= seq![seq!['0'], seq!['1', '0'], seq!['0']]);
    assert(text::decimal(0) =~= seq!['0']);
    assert(text::decimal(1) =~= seq!['1']);
    assert(text::decimal(10) =~= seq!['1', '0']);
    text::number_reads_back(0, u64::MAX as nat);
    text::number_reads_back(10, u64::MAX as nat);
}

/// The version of this program.
pub fn current_version() -> (r: (u64, u64, u64))
    ensures
        version_of(VERSION@) == Some(r),
{
    proof {
        own_version_can_be_read();
    }
    parse_ver(VERSION).unwrap()
}

/// `a` is a later version than `b`: numbers are compared as numbers, the first
/// that differs decides.
pub open spec fn later(a: (u64, u64, u64), b: (u64, u64, u64)) -> bool {
    a.0 > b.0 || a.0 == b.0 && (a.1 > b.1 || a.1 == b.1 && a.2 > b.2)
}

/// Whether `a` is a later version than `b`.
pub fn is_later(a: (u64, u64, u64), b: (u64, u64, u64)) -> (r: bool)
    ensures
        r == later(a, b),
{
    a.0 > b.0 || a.0 == b.0 && (a.1 > b.1 || a.1 == b.1 && a.2 > b.2)
}

/// Of two different versions exactly one is later, and later than later is
/// later.
pub proof fn versions_are_ordered(a: (u64, u64, u64), b: (u64, u64, u64), c: (u64, u64, u64))
    ensures
        !later(a, a),
        a != b ==> later(a, b) != later(b, a),
        later(a, b) && later(b, c) ==> later(a, c),
{
}

/// One file of a release.
#[derive(Debug)]
pub struct Asset {
    pub name: Option<String>,
    pub url: Option<String>,
    pub digest: Option<String>,
}

/// A release as the server describes it.
#[derive(Debug)]
pub struct Release {
    pub tag: String,
    /// Its files, if it lists any.
    pub assets: Option<Vec<Asset>>,
}

/// Where a property of the `i`-th file stands in the description.
pub open spec fn asset_pointer(i: int, key: Seq<char>) -> Seq<char> {
    "/assets/"@ + text::decimal(i as nat) + "/"@ + key
}

fn asset_text(raw: &Vec<u8>, i: usize, key: &str) -> (r: Option<String>)
    ensures
        opt_view(r) == foreign::text_in_json(raw@, asset_pointer(i as int, key@)),
{
    let mut p: String = text::join("/assets/", text::number(i as u64).as_str());
    p.append("/");
    p.append(key);
    foreign::json_text(raw, p.as_str())
}

/// `assets` are the files that the description lists.
pub open spec fn lists_assets(raw: Seq<u8>, assets: Seq<Asset>) -> bool {
    forall|i: int|
        0 <= i < assets.len() ==> {
            &&& opt_view((#[trigger] assets[i]).name) == foreign::text_in_json(
                raw,
                asset_pointer(i, "name"@),
            )
            &&& opt_view(assets[i].url) == foreign::text_in_json(
                raw,
                asset_pointer(i, "browser_download_url"@),
            )
            &&& opt_view(assets[i].digest) == foreign::text_in_json(raw, asset_pointer(i, "digest"@))
        }
}

/// Reads the description of a release: `None` if it is not JSON. A release
/// without a tag has an empty one.
pub fn read_release(raw: &Vec<u8>) -> (r: Option<Release>)
    ensures
        r is Some <==> foreign::has_json(raw@, ""@),
        r matches Some(rel) ==> {
            &&& rel.tag@ == match foreign::text_in_json(raw@, "/tag_name"@) {
                Some(t) => t,
                None => Seq::empty(),
            }
            &&& match rel.assets {
                Some(a) => foreign::items_in_json(raw@, "/assets"@) == Some(a@.len() as usize)
                    && lists_assets(raw@, a@),
                None => foreign::items_in_json(raw@, "/assets"@) is None,
            }
        },
{
    if !foreign::json_has(raw, "") {
        return None;
    }
    let tag = match foreign::json_text(raw, "/tag_name") {
        Some(t) => t,
        None => String::new(),
    };
    let assets = match foreign::json_items(raw, "/assets") {
        Some(n) => {
            let mut v: Vec<Asset> = Vec::new();
            let mut i: usize = 0;
            while i < n
                invariant
                    i <= n,
                    v@.len() == i,
                    lists_assets(raw@, v@),
                decreases n - i,
            {
                let a = Asset {
                    name: asset_text(raw, i, "name"),
                    url: asset_text(raw, i, "browser_download_url"),
                    digest: asset_text(raw, i, "digest"),
                };
                v.push(a);
                i = i + 1;
            }
            Some(v)
        },
        None => None,
    };
    Some(Release { tag, assets })
}

/// The number of the first installer among the files; their count if there is
/// none.
pub open spec fn first_setup(assets: Seq<Asset>) -> int
    decreases assets.len(),
{
    if assets.len() == 0 || opt_view(assets[0].name) == Some(SETUP_NAME@) {
        0
    } else {
        1 + first_setup(assets.skip(1))
    }
}

fn find_setup(assets: &Vec<Asset>) -> (r: usize)
    ensures
        r == first_setup(assets@),
        r <= assets@.len(),
{
    let mut i: usize = 0;
    assert(assets@.skip(0) =~= assets@);
    while i < assets.len()
        invariant
            i <= assets@.len(),
            first_setup(assets@) == i + first_setup(assets@.skip(i as int)),
        decreases assets@.len() - i,
    {
        assert(assets@.skip(i as int)[0] == assets@[i as int]);
        let hit = match &assets[i].name {
            Some(n) => text::same(n.as_str(), SETUP_NAME),
            None => false,
        };
        if hit {
            return i;
        }
        assert(assets@.skip(i as int).skip(1) =~= assets@.skip(i + 1));
        i = i + 1;
    }
    i
}

/// The hash in a file's digest: what follows `sha256:`, in small letters.
pub open spec fn hash_in(digest: Option<Seq<char>>) -> Option<Seq<char>> {
    match digest {
        Some(d) => match text::after_prefix(d, "sha256:"@) {
            Some(h) => Some(foreign::lowercase(h)),
            None => None,
        },
        None => None,
    }
}

fn read_digest(digest: &Option<String>) -> (r: Option<String>)
    ensures
        opt_view(r) == hash_in(opt_view(*digest)),
{
    match digest {
        Some(d) => match text::strip_prefix(&text::to_chars(d.as_str()), "sha256:") {
            Some(h) => Some(foreign::to_lowercase(text::from_chars(&h).as_str())),
            None => None,
        },
        None => None,
    }
}

/// Judges a release: the update it offers, nothing if it is no later than
/// `current`, or why it cannot be used.
pub fn judge_release(release: &Release, current: (u64, u64, u64)) -> (r: Result<
    Option<UpdateInfo>,
    String,
>)
    ensures
        match version_of(release.tag@) {
            None => r matches Err(e) && e@ == "tag non semver"@,
            Some(latest) => if !later(latest, current) {
                r matches Ok(None)
            } else if release.assets is None || first_setup(release.assets->0@)
                == release.assets->0@.len() {
                r matches Err(e) && e@ == "release senza mdm-setup.exe"@
            } else {
                let a = release.assets->0@[first_setup(release.assets->0@)];
                match a.url {
                    None => r matches Err(e) && e@ == "asset senza url"@,
                    Some(u) => r matches Ok(Some(info)) && info.version@ == release.tag@
                        && info.url@ == u@ && opt_view(info.sha256) == hash_in(opt_view(a.digest)),
                }
            },
        },
{
    let latest = match parse_ver(release.tag.as_str()) {
        Some(v) => v,
        None => {
            return Err(text::owned("tag non semver"));
        },
    };
    if !is_later(latest, current) {
        return Ok(None);
    }
    match &release.assets {
        Some(assets) => {
            let i: usize = find_setup(assets);
            if i == assets.len() {
                return Err(text::owned("release senza mdm-setup.exe"));
            }
            let a = &assets[i];
            match &a.url {
                Some(u) => Ok(
                    Some(
                        UpdateInfo {
                            version: release.tag.clone(),
                            url: u.clone(),
                            sha256: read_digest(&a.digest),
                        },
                    ),
                ),
                None => Err(text::owned("asset senza url")),
            }
        },
        None => Err(text::owned("release senza mdm-setup.exe")),
    }
}

/// The hexadecimal digit for `n`.
pub open spec fn hex_char(n: int) -> char {
    if n < 10 { (48 + n) as char } else { (87 + n) as char }
}

/// Bytes in hexadecimal, two small digits each.
pub open spec fn hex_text(b: Seq<u8>) -> Seq<char>
    decreases b.len(),
{
    if b.len() == 0 {
        Seq::empty()
    } else {
        hex_text(b.drop_last()).push(hex_char(b.last() as int / 16)).push(
            hex_char(b.last() as int % 16),
        )
    }
}

fn nibble(n: u8) -> (r: char)
    requires
        n < 16,
    ensures
        r == hex_char(n as int),
{
    if n < 10 { (48 + n) as char } else { (87 + n) as char }
}

/// Bytes in hexadecimal.
pub fn to_hex(b: &Vec<u8>) -> (r: String)
    ensures
        r@ == hex_text(b@),
{
    let mut r: String = String::new();
    let mut i: usize = 0;
    assert(b@.take(0) =~= Seq::empty());
    assert(r@ =~= Seq::empty());
    while i < b.len()
        invariant
            i <= b@.len(),
            r@ == hex_text(b@.take(i as int)),
        decreases b@.len() - i,
    {
        assert(b@.take(i + 1).drop_last() =~= b@.take(i as int));
        r.push(nibble(b[i] / 16));
        r.push(nibble(b[i] % 16));
        i = i + 1;
    }
    assert(b@.take(i as int) =~= b@);
    r
}

/// Compares a hash with the one that was published: the error, if they differ.
pub fn judge_hash(got: &str, want: &str) -> (r: Option<String>)
    ensures
        r is None <==> got@ == want@,
        r matches Some(e) ==> e@ == "sha256 non corrisponde: atteso "@ + want@ + ", ottenuto "@
            + got@,
{
    if text::same(got, want) {
        return None;
    }
    let mut e: String = text::join("sha256 non corrisponde: atteso ", want);
    e.append(", ottenuto ");
    e.append(got);
    Some(e)
}

/// Checks that an installer is the one that was published: the error, if its
/// hash is another.
pub fn verify_installer(bytes: &Vec<u8>, want: &str) -> (r: Option<String>)
    ensures
        r is None <==> hex_text(foreign::sha256(bytes@)) == want@,
        r matches Some(e) ==> e@ == "sha256 non corrisponde: atteso "@ + want@ + ", ottenuto "@
            + hex_text(foreign::sha256(bytes@)),
{
    let got = to_hex(&foreign::sha256_digest(bytes));
    judge_hash(got.as_str(), want)
}

/// Different bytes have different hexadecimal texts: a hash that differs is
/// always noticed.
pub proof fn hex_tells_bytes_apart(a: Seq<u8>, b: Seq<u8>)
    requires
        hex_text(a) == hex_text(b),
    ensures
        a == b,
    decreases a.len(),
{
    lemma_hex_len(a);
    lemma_hex_len(b);
    if a.len() > 0 {
        let x = hex_text(a);
        let y = hex_text(b);
        assert(b.len() > 0);
        assert(x.drop_last().drop_last() =~= hex_text(a.drop_last()));
        assert(y.drop_last().drop_last() =~= hex_text(b.drop_last()));
        assert(x.last() == hex_char(a.last() as int % 16));
        assert(y.last() == hex_char(b.last() as int % 16));
        assert(x[x.len() - 2] == hex_char(a.last() as int / 16));
        assert(y[y.len() - 2] == hex_char(b.last() as int / 16));
        hex_tells_bytes_apart(a.drop_last(), b.drop_last());
        assert(a.last() == b.last());
        assert(a =~= a.drop_last().push(a.last()));
        assert(b =~= b.drop_last().push(b.last()));
    } else {
        assert(a =~= b);
    }
}

proof fn lemma_hex_len(a: Seq<u8>)
    ensures
        hex_text(a).len() == 2 * a.len(),
    decreases a.len(),
{
    if a.len() > 0 {
        lemma_hex_len(a.drop_last());
    }
}

/// The commands that wait for this program to end, install the new version
/// silently, and start it again. Paths stand in plain quotes, as the command
/// interpreter has them.
pub fn update_script(setup: &str, exe: &str) -> (r: String)
    ensures
        r@ == "@echo off\r\nping -n 3 127.0.0.1 >nul\r\n\""@ + setup@
            + "\" /VERYSILENT /SUPPRESSMSGBOXES\r\n\""@ + exe@ + "\"\r\n"@,
{
    let mut r: String = text::join("@echo off\r\nping -n 3 127.0.0.1 >nul\r\n\"", setup);
    r.append("\" /VERYSILENT /SUPPRESSMSGBOXES\r\n\"");
    r.append(exe);
    r.append("\"\r\n");
    r
}

/// How often, a tenth of a second apart, the downloads at work are looked at
/// before an update goes on without waiting for them.
pub const PAUSE_POLLS: u32 = 100;

/// Whether an update waits longer for downloads to pause: what they received
/// last is saved when they do.
pub fn waits_for_pause(busy: usize, polls: u32) -> (r: bool)
    ensures
        r == (busy > 0 && polls < PAUSE_POLLS),
{
    busy > 0 && polls < PAUSE_POLLS
}

/// A version with a larger first number is later whatever the others are; if
/// the first is the same, one with a larger second number is later whatever the
/// third is; and if only the third differs, the larger is later.
pub proof fn larger_numbers_are_later(
    major: u64,
    more: u64,
    minor: u64,
    patch: u64,
    minor2: u64,
    patch2: u64,
)
    ensures
        more > major ==> later((more, minor2, patch2), (major, minor, patch)) && !later(
            (major, minor, patch),
            (more, minor2, patch2),
        ),
        minor2 > minor ==> later((major, minor2, patch2), (major, minor, patch)) && !later(
            (major, minor, patch),
            (major, minor2, patch2),
        ),
        patch2 > patch ==> later((major, minor, patch2), (major, minor, patch)) && !later(
            (major, minor, patch),
            (major, minor, patch2),
        ),
{
}

/// The text of a version is read as its three numbers, with or without `v`s
/// before them, blanks around it all, or more behind a further dot.
#[verifier::rlimit(40)]
pub proof fn versions_can_be_read(
    p: Seq<char>,
    v: Seq<char>,
    a: u64,
    b: u64,
    c: u64,
    q: Seq<char>,
    rest: Seq<char>,
)
    requires
        rest.len() == 0 || !text::is_white(rest.last()),
        forall|i: int| 0 <= i < v.len() ==> (#[trigger] v[i]) == 'v',
        forall|i: int| 0 <= i < p.len() ==> text::is_white(#[trigger] p[i]),
        forall|i: int| 0 <= i < q.len() ==> text::is_white(#[trigger] q[i]),
    ensures
        ({
            let t = text::decimal(a as nat).push('.') + text::decimal(b as nat).push('.')
                + text::decimal(c as nat);
            &&& version_of(p + (v + t) + q) == Some((a, b, c))
            &&& version_of(t.push('.') + rest) == Some((a, b, c))
        }),
{
    let x = text::decimal(a as nat);
    let y = text::decimal(b as nat);
    let z = text::decimal(c as nat);
    let t = x.push('.') + y.push('.') + z;
    let none = Seq::<char>::empty();
    text::lemma_decimal(a as nat);
    text::lemma_decimal(b as nat);
    text::lemma_decimal(c as nat);
    text::number_reads_back(a as nat, u64::MAX as nat);
    text::number_reads_back(b as nat, u64::MAX as nat);
    text::number_reads_back(c as nat, u64::MAX as nat);
    lemma_no_dot(a as nat);
    lemma_no_dot(b as nat);
    lemma_no_dot(c as nat);
    text::pieces_come_apart(none, '.', x);
    text::pieces_come_apart(x, '.', y);
    text::pieces_come_apart(x.push('.') + y, '.', z);
    assert(t =~= (x.push('.') + y).push('.') + z);
    assert(text::pieces(t, '.') =~= seq![x, y, z]);
    assert(text::is_digit(x[0]) && text::is_digit(z[z.len() - 1]));
    assert(t[0] == x[0] && t.last() == z.last());
    // Trimmed of what is around it, the version is left.
    assert((v + t)[0] == if v.len() > 0 { v[0] } else { t[0] });
    assert((v + t).last() == t.last());
    text::only_the_ends_are_trimmed(p, v + t, q, Class::White);
    text::only_the_ends_are_trimmed(v, t, none, Class::One('v'));
    // What follows a further dot does not matter.
    let u = t.push('.') + rest;
    assert(u[0] == x[0]);
    text::only_the_ends_are_trimmed(none, u, none, Class::White);
    assert(none + u + none =~= u);
    assert(text::trim_start(u, Class::One('v')) == u);
    lemma_first_pieces(t, '.', rest);
    let f = text::pieces(u, '.');
    let g = text::pieces(t, '.');
    assert(g[0] == x && g[1] == y && g[2] == z);
    assert(f[0] == g[0] && f[1] == g[1] && f[2] == g[2]);
}

/// A version needs three parts, and each of the first three must be a number.
pub proof fn versions_have_three_numbers(x: Seq<char>, y: Seq<char>, z: Seq<char>)
    requires
        !x.contains('.') && !y.contains('.') && !z.contains('.'),
        x.len() > 0 && x[0] != 'v' && !text::is_white(x[0]),
        y.len() > 0 && !text::is_white(y.last()),
        z.len() > 0 && !text::is_white(z.last()),
    ensures
        version_of(x.push('.') + y.push('.') + z) is Some <==> text::parsed(
            x,
            u64::MAX as nat,
        ) is Some && text::parsed(y, u64::MAX as nat) is Some && text::parsed(
            z,
            u64::MAX as nat,
        ) is Some,
        version_of(x.push('.') + y) is None,
{
    let none = Seq::<char>::empty();
    text::pieces_come_apart(none, '.', x);
    text::pieces_come_apart(x, '.', y);
    text::pieces_come_apart(x.push('.') + y, '.', z);
    let t = x.push('.') + y.push('.') + z;
    assert(t =~= (x.push('.') + y).push('.') + z);
    assert(t[0] == x[0] && t.last() == z.last());
    text::only_the_ends_are_trimmed(none, t, none, Class::White);
    assert(none + t + none =~= t);
    let u = x.push('.') + y;
    assert(u[0] == x[0] && u.last() == y.last());
    text::only_the_ends_are_trimmed(none, u, none, Class::White);
    assert(none + u + none =~= u);
}

proof fn lemma_no_dot(n: nat)
    ensures
        !text::decimal(n).contains('.'),
{
    let d = text::decimal(n);
    text::lemma_decimal(n);
    assert forall|i: int| 0 <= i < d.len() implies d[i] != '.' by {
        assert(text::is_digit(d[i]));
    }
}

/// What follows a separator leaves the pieces before it alone.
proof fn lemma_first_pieces(t: Seq<char>, c: char, rest: Seq<char>)
    ensures
        ({
            let p = text::pieces(t.push(c) + rest, c);
            let q = text::pieces(t, c);
            p.len() > q.len() && forall|i: int| 0 <= i < q.len() ==> #[trigger] p[i] == q[i]
        }),
    decreases rest.len(),
{
    let u = t.push(c) + rest;
    if rest.len() == 0 {
        assert(u =~= t.push(c));
        assert(u.drop_last() =~= t);
    } else {
        lemma_first_pieces(t, c, rest.drop_last());
        assert(u.drop_last() =~= t.push(c) + rest.drop_last());
    }
}

/// The installer is the first file of that name: no earlier one has it, and it
/// is found if there is one.
pub proof fn the_first_installer_is_taken(assets: Seq<Asset>)
    ensures
        0 <= first_setup(assets) <= assets.len(),
        first_setup(assets) < assets.len() ==> (assets[first_setup(assets)].name matches Some(n)
            && n@ == "mdm-setup.exe"@),
        forall|i: int|
            0 <= i < first_setup(assets) ==> !((#[trigger] assets[i]).name matches Some(n) && n@
                == "mdm-setup.exe"@),
    decreases assets.len(),
{
    if assets.len() > 0 && opt_view(assets[0].name) != Some(SETUP_NAME@) {
        let rest = assets.skip(1);
        the_first_installer_is_taken(rest);
        assert forall|i: int| 0 <= i < first_setup(assets) implies !((
        #[trigger] assets[i]).name matches Some(n) && n@ == "mdm-setup.exe"@) by {
            if i > 0 {
                assert(assets[i] == rest[i - 1]);
            }
        }
    }
}

/// A published hash is what follows the name of its kind, in small letters; a
/// digest of another kind gives none.
pub proof fn published_hashes_are_read(h: Seq<char>, d: Seq<char>)
    ensures
        hash_in(Some("sha256:"@ + h)) == Some(foreign::lowercase(h)),
        hash_in(None) is None,
        hash_in(Some(d)) matches Some(x) ==> exists|k: Seq<char>|
            d == "sha256:"@ + k && x == #[trigger] foreign::lowercase(k),
{
    text::beginnings_and_ends_come_off("sha256:"@, h, d);
}

/// Every byte is written as two hexadecimal digits, the larger part first, in
/// small letters.
pub proof fn bytes_are_written_as_two_digits(b: Seq<u8>, i: int)
    requires
        0 <= i < b.len(),
    ensures
        hex_text(b).len() == 2 * b.len(),
        hex_digit(hex_text(b)[2 * i]) * 16 + hex_digit(hex_text(b)[2 * i + 1]) == b[i],
        '0' <= hex_text(b)[2 * i] <= '9' || 'a' <= hex_text(b)[2 * i] <= 'f',
        '0' <= hex_text(b)[2 * i + 1] <= '9' || 'a' <= hex_text(b)[2 * i + 1] <= 'f',
    decreases b.len(),
{
    lemma_hex_len(b);
    lemma_hex_len(b.drop_last());
    if i < b.len() - 1 {
        bytes_are_written_as_two_digits(b.drop_last(), i);
    }
}

/// What a hexadecimal digit in small letters stands for.
pub open spec fn hex_digit(c: char) -> int {
    if c <= '9' { c as int - '0' as int } else { c as int - 'a' as int + 10 }
}

/// The properties of different files of a release stand in different places.
pub proof fn files_of_a_release_are_told_apart(i: nat, j: nat, key: Seq<char>)
    ensures
        asset_pointer(i as int, key) == asset_pointer(j as int, key) ==> i == j,
        text::after_prefix(asset_pointer(i as int, key), "/assets/"@) == Some(
            text::decimal(i) + "/"@ + key,
        ),
{
    let p = "/assets/"@;
    let a = text::decimal(i) + "/"@ + key;
    let b = text::decimal(j) + "/"@ + key;
    assert(asset_pointer(i as int, key) =~= p + a);
    assert(asset_pointer(j as int, key) =~= p + b);
    text::beginnings_and_ends_come_off(p, a, a);
    text::beginnings_and_ends_come_off(p, b, b);
    if a == b {
        assert(a.take(a.len() - key.len() - "/"@.len()) =~= text::decimal(i));
        assert(b.take(b.len() - key.len() - "/"@.len()) =~= text::decimal(j));
        text::numbers_are_written_plainly(i, j);
    }
}

/// The files of a release are those that its description lists, in its order,
/// with the names, links and digests that stand there.
pub proof fn files_are_listed_as_described(raw: Seq<u8>, assets: Seq<Asset>, i: int)
    requires
        lists_assets(raw, assets),
        0 <= i < assets.len(),
    ensures
        ({
            let at = "/assets/"@ + text::decimal(i as nat) + "/"@;
            &&& opt_view(assets[i].name) == foreign::text_in_json(raw, at + "name"@)
            &&& opt_view(assets[i].url) == foreign::text_in_json(raw, at + "browser_download_url"@)
            &&& opt_view(assets[i].digest) == foreign::text_in_json(raw, at + "digest"@)
        }),
{
}

/// A new release is looked for every six hours, and an update waits ten
/// seconds at most for downloads to pause.
pub proof fn updates_take_their_time()
    ensures
        CHECK_EVERY == 6 * 60 * 60,
        PAUSE_POLLS == 100,
{
}

} // verus!
