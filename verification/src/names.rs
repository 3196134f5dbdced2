//! File names: what a server or a user proposes, made fit for a disk.

use crate::probe::opt_view;
use crate::text::{self, Class};
use vstd::prelude::*;
use vstd::string::*;

verus! {

/// A file in a folder. The folder is text for the file system; only the name
/// is ever taken apart.
#[derive(Debug)]
pub struct FilePath {
    pub dir: String,
    pub name: String,
    /// What stands behind the name without being part of it: nothing, but for
    /// a path that ends in a separator.
    pub tail: String,
}

/// What a [`FilePath`] holds.
pub struct PathView {
    pub dir: Seq<char>,
    pub name: Seq<char>,
    pub tail: Seq<char>,
}

/// The path of the file `name` in the folder `dir`.
pub open spec fn at(dir: Seq<char>, name: Seq<char>) -> PathView {
    PathView { dir, name, tail: Seq::empty() }
}

impl View for FilePath {
    type V = PathView;

    open spec fn view(&self) -> PathView {
        PathView { dir: self.dir@, name: self.name@, tail: self.tail@ }
    }
}

impl Clone for FilePath {
    fn clone(&self) -> (r: FilePath)
        ensures
            r == *self,
    {
        FilePath { dir: self.dir.clone(), name: self.name.clone(), tail: self.tail.clone() }
    }
}

/// `name` can be that of a file: it is neither empty nor stands for a folder.
pub open spec fn is_file_name(name: Seq<char>) -> bool {
    name.len() > 0 && name != seq!['.'] && name != seq!['.', '.']
}

impl PathView {
    /// The name can be that of a file.
    pub open spec fn names_a_file(self) -> bool {
        is_file_name(self.name)
    }

    /// The name that is shown: none if the path names no file.
    pub open spec fn shown(self) -> Seq<char> {
        if is_file_name(self.name) { self.name } else { Seq::empty() }
    }

    /// What stands behind the name does not start with a blank: it is nothing,
    /// or a separator and more.
    pub open spec fn well_formed(self) -> bool {
        self.tail.len() > 0 ==> self.tail[0] != ' '
    }
}

/// Whether `v` can be the name of a file.
pub fn can_be_file(v: &Vec<char>) -> (r: bool)
    ensures
        r == is_file_name(v@),
{
    let r = v.len() > 2 || v.len() > 0 && !(v[0] == '.' && (v.len() == 1 || v[1] == '.'));
    proof {
        if !r && v@.len() > 0 {
            if v@.len() == 1 {
                assert(v@ =~= seq!['.']);
            } else {
                assert(v@ =~= seq!['.', '.']);
            }
        }
        if r && v@ == seq!['.'] {
            assert(v@[0] == '.');
        }
        if r && v@ == seq!['.', '.'] {
            assert(v@[0] == '.' && v@[1] == '.');
        }
    }
    r
}

impl FilePath {
    /// A file in a folder.
    pub fn new(dir: &str, name: &str) -> (r: FilePath)
        ensures
            r@ == at(dir@, name@),
    {
        let r = FilePath { dir: text::owned(dir), name: text::owned(name), tail: String::new() };
        assert(r@.tail =~= Seq::empty());
        r
    }

    /// The path of no file at all.
    pub fn empty() -> (r: FilePath)
        ensures
            r@ == at(Seq::empty(), Seq::empty()),
    {
        let r = FilePath { dir: String::new(), name: String::new(), tail: String::new() };
        assert(r@.tail =~= Seq::empty());
        assert(r@.dir =~= Seq::empty());
        assert(r@.name =~= Seq::empty());
        r
    }

    /// Whether this is the path of no file.
    pub fn is_empty(&self) -> (r: bool)
        ensures
            r == (self@.dir.len() == 0 && self@.name.len() == 0 && self@.tail.len() == 0),
    {
        self.dir.as_str().unicode_len() == 0 && self.name.as_str().unicode_len() == 0
            && self.tail.as_str().unicode_len() == 0
    }

    /// The name that is shown.
    pub fn shown_name(&self) -> (r: String)
        ensures
            r@ == self@.shown(),
    {
        if can_be_file(&text::to_chars(self.name.as_str())) {
            self.name.clone()
        } else {
            let r = String::new();
            assert(r@ =~= Seq::empty());
            r
        }
    }
}

/// The path of what is called `file` in a folder, where `parent` is the folder
/// that one is in, if there is such, and `own` its name there. Nothing, or a
/// single dot, is the folder itself, with a separator behind its name.
pub open spec fn inside(
    folder: Seq<char>,
    parent: Option<Seq<char>>,
    own: Seq<char>,
    file: Seq<char>,
) -> PathView {
    if file.len() > 0 && file != seq!['.'] {
        at(folder, file)
    } else {
        match parent {
            Some(p) => PathView { dir: p, name: own, tail: seq!['/'] + file },
            None => PathView { dir: Seq::empty(), name: Seq::empty(), tail: folder + file },
        }
    }
}

/// The path of what is called `file` in a folder.
pub fn locate(folder: &str, parent: Option<String>, own: &str, file: &str) -> (r: FilePath)
    ensures
        r@ == inside(folder@, opt_view(parent), own@, file@),
{
    let f = text::to_chars(file);
    let dot = f.len() == 1 && f[0] == '.';
    proof {
        if dot {
            assert(file@ =~= seq!['.']);
        }
    }
    if f.len() > 0 && !dot {
        return FilePath::new(folder, file);
    }
    match parent {
        Some(p) => {
            let mut tail: String = String::new();
            tail.push('/');
            tail.append(file);
            assert(tail@ =~= seq!['/'] + file@);
            FilePath { dir: p, name: text::owned(own), tail }
        },
        None => {
            let r = FilePath {
                dir: String::new(),
                name: String::new(),
                tail: text::join(folder, file),
            };
            assert(r@.dir =~= Seq::empty());
            assert(r@.name =~= Seq::empty());
            r
        },
    }
}

/// A character that no file name may hold becomes an underscore.
pub open spec fn clean_char(c: char) -> char {
    if c == '<' || c == '>' || c == ':' || c == '"' || c == '/' || c == '\\' || c == '|' || c == '?'
        || c == '*' || (c as u32) < 0x20 {
        '_'
    } else {
        c
    }
}

/// `name` with every character cleaned.
pub open spec fn clean(name: Seq<char>) -> Seq<char> {
    name.map_values(|c: char| clean_char(c))
}

/// The characters that a name neither starts nor ends with.
pub open spec fn edge() -> Class {
    Class::Two('.', ' ')
}

/// Names that are devices on DOS and cannot be files: `CON`, `PRN`, `AUX`,
/// `NUL`, `COM1` to `COM9` and `LPT1` to `LPT9`.
pub open spec fn is_device(s: Seq<char>) -> bool {
    ||| s == seq!['C', 'O', 'N']
    ||| s == seq!['P', 'R', 'N']
    ||| s == seq!['A', 'U', 'X']
    ||| s == seq!['N', 'U', 'L']
    ||| {
        &&& s.len() == 4
        &&& s.take(3) == seq!['C', 'O', 'M'] || s.take(3) == seq!['L', 'P', 'T']
        &&& '1' <= s[3] <= '9'
    }
}

/// Whether the part before the first dot, in any case, is a device name.
pub open spec fn is_reserved(name: Seq<char>) -> bool {
    is_device(text::upper(text::before(name, Class::One('.'))))
}

/// The name a download is saved under when `name` is proposed.
pub open spec fn sanitized(name: Seq<char>) -> Seq<char> {
    let t = text::trim(clean(name), edge());
    if t.len() == 0 {
        "download"@
    } else if is_reserved(t) {
        seq!['_'] + t
    } else {
        t
    }
}

fn is_three(s: &Vec<char>, a: char, b: char, c: char) -> (r: bool)
    requires
        s@.len() >= 3,
    ensures
        r == (s@.take(3) == seq![a, b, c]),
{
    let r = s[0] == a && s[1] == b && s[2] == c;
    proof {
        let t = s@.take(3);
        if r {
            assert(t =~= seq![a, b, c]);
        } else if t == seq![a, b, c] {
            assert(t[0] == a && t[1] == b && t[2] == c);
        }
    }
    r
}

fn device(s: &Vec<char>) -> (r: bool)
    ensures
        r == is_device(s@),
{
    if s.len() == 3 {
        assert(s@.take(3) =~= s@);
        is_three(s, 'C', 'O', 'N') || is_three(s, 'P', 'R', 'N') || is_three(s, 'A', 'U', 'X')
            || is_three(s, 'N', 'U', 'L')
    } else if s.len() == 4 {
        (is_three(s, 'C', 'O', 'M') || is_three(s, 'L', 'P', 'T')) && '1' <= s[3] && s[3] <= '9'
    } else {
        false
    }
}

/// Makes a proposed name fit to be a file: characters no file system takes
/// become underscores, dots and blanks at the ends go, a device name gets an
/// underscore in front, and nothing left becomes `download`.
pub fn sanitize_filename(name: &str) -> (r: String)
    ensures
        r@ == sanitized(name@),
{
    let v = text::to_chars(name);
    let mut cleaned: Vec<char> = Vec::new();
    let mut i: usize = 0;
    while i < v.len()
        invariant
            i <= v@.len(),
            cleaned@ == clean(v@).take(i as int),
        decreases v@.len() - i,
    {
        let c: char = v[i];
        let bad = c == '<' || c == '>' || c == ':' || c == '"' || c == '/' || c == '\\' || c == '|'
            || c == '?' || c == '*' || (c as u32) < 0x20;
        cleaned.push(if bad { '_' } else { c });
        i = i + 1;
        assert(clean(v@).take(i as int).drop_last() =~= clean(v@).take(i - 1));
    }
    assert(clean(v@).take(v@.len() as int) =~= clean(v@));
    let t = text::strip(&cleaned, Class::Two('.', ' '));
    if t.len() == 0 {
        return text::owned("download");
    }
    let stem = text::cut_before(&t, Class::One('.'));
    let body = text::from_chars(&t);
    if device(&text::to_upper(&stem)) {
        let mut r: String = String::new();
        r.push('_');
        r.append(body.as_str());
        assert(r@ =~= seq!['_'] + t@);
        r
    } else {
        body
    }
}

/// Where the extension of `name` starts, with its dot: the last dot, unless
/// there is none or it is the first character. The length of `name` if it has
/// no extension, as has none that names no file.
pub open spec fn ext_start(name: Seq<char>) -> int {
    let k = name.len() - text::after_last(name, '.').len();
    if k <= 1 || !is_file_name(name) { name.len() as int } else { k - 1 }
}

/// What stands before the extension of `name`: nothing if it names no file.
pub open spec fn stem(name: Seq<char>) -> Seq<char> {
    if is_file_name(name) { name.take(ext_start(name)) } else { Seq::empty() }
}

/// The `i`-th name to try for `name`: `file.zip`, `file (1).zip`, and so on.
pub open spec fn candidate_name(name: Seq<char>, i: nat) -> Seq<char> {
    if i == 0 {
        name
    } else {
        stem(name) + " ("@ + text::decimal(i) + ")"@ + name.skip(ext_start(name))
    }
}

/// The `i`-th path to try.
pub open spec fn candidate(path: PathView, i: nat) -> PathView {
    if i == 0 { path } else { at(path.dir, candidate_name(path.name, i)) }
}

/// What stands after the last `c` is a suffix, and the `c` stands before it.
proof fn lemma_after_last(s: Seq<char>, c: char)
    ensures
        text::after_last(s, c).len() <= s.len(),
        text::after_last(s, c) == s.skip(s.len() - text::after_last(s, c).len()),
        text::after_last(s, c).len() < s.len() ==> s[s.len() - text::after_last(s, c).len() - 1]
            == c,
        forall|i: int|
            s.len() - text::after_last(s, c).len() <= i < s.len() ==> #[trigger] s[i] != c,
    decreases s.len(),
{
    if s.len() > 0 && s.last() != c {
        let t = s.drop_last();
        lemma_after_last(t, c);
        let n = text::after_last(t, c).len() as int;
        assert(s.skip(t.len() - n) =~= t.skip(t.len() - n).push(s.last()));
        assert forall|i: int| t.len() - n <= i < s.len() implies #[trigger] s[i] != c by {
            if i < t.len() {
                assert(s[i] == t[i]);
            }
        }
    } else {
        assert(s.skip(s.len() as int) =~= Seq::empty());
    }
}

/// There is one last dot.
proof fn lemma_last_dot(s: Seq<char>, k: int)
    requires
        0 <= k < s.len(),
        s[k] == '.',
        forall|i: int| k < i < s.len() ==> #[trigger] s[i] != '.',
    ensures
        text::after_last(s, '.').len() == s.len() - k - 1,
{
    lemma_after_last(s, '.');
    let n = text::after_last(s, '.').len();
    if s.len() - n - 1 > k {
        assert(s[s.len() - n - 1] == '.');
    }
    if s.len() - n <= k {
        assert(s[k] != '.');
    }
}

proof fn lemma_ext_start(name: Seq<char>)
    ensures
        0 <= ext_start(name) <= name.len(),
        ext_start(name) < name.len() ==> ext_start(name) > 0 && name[ext_start(name)] == '.',
        forall|i: int| ext_start(name) < i < name.len() ==> #[trigger] name[i] != '.',
        ext_start(name) == name.len() && is_file_name(name) ==> forall|i: int|
            0 < i < name.len() ==> #[trigger] name[i] != '.',
        stem(name).len() <= ext_start(name),
        !is_file_name(name) ==> name.len() <= 2 && ext_start(name) == name.len(),
{
    lemma_after_last(name, '.');
}

/// The extension of a name, with its dot; empty if it has none.
pub fn extension(name: &str) -> (r: String)
    ensures
        r@ == name@.skip(ext_start(name@)),
{
    let v = text::to_chars(name);
    let at: usize = find_extension(&v);
    let ext = text::slice(&v, at, v.len());
    assert(ext@ =~= v@.skip(at as int));
    text::from_chars(&ext)
}

fn find_extension(v: &Vec<char>) -> (r: usize)
    ensures
        r == ext_start(v@),
        r <= v@.len(),
{
    let tail = text::cut_after_last(v, '.');
    proof {
        lemma_after_last(v@, '.');
    }
    let k: usize = v.len() - tail.len();
    if k <= 1 || !can_be_file(v) { v.len() } else { k - 1 }
}

/// The `i`-th path to try for a file: `file.zip`, `file (1).zip`,
/// `file (2).zip`, and so on. A path that names no file has an empty stem.
pub fn nth_candidate(path: &FilePath, i: u32) -> (r: FilePath)
    ensures
        r@ == candidate(path@, i as nat),
{
    if i == 0 {
        return path.clone();
    }
    let v = text::to_chars(path.name.as_str());
    let at: usize = find_extension(&v);
    let before = text::slice(&v, 0, if can_be_file(&v) { at } else { 0 });
    let ext = text::slice(&v, at, v.len());
    let mut name: String = text::from_chars(&before);
    name.append(" (");
    name.append(text::number(i as u64).as_str());
    name.append(")");
    name.append(text::from_chars(&ext).as_str());
    proof {
        assert(before@ =~= stem(v@));
        assert(ext@ =~= v@.skip(at as int));
    }
    let r = FilePath { dir: path.dir.clone(), name, tail: String::new() };
    assert(r@.tail =~= Seq::empty());
    r
}

/// Where a file is kept while it is downloaded.
pub open spec fn part_of(path: PathView) -> PathView {
    at(path.dir, path.name + path.tail + ".part"@)
}

/// Where the state of a download is kept, beside its part file.
pub open spec fn sidecar_of(part: PathView) -> PathView {
    at(part.dir, part.name + part.tail + ".mdm.json"@)
}

fn with_suffix(path: &FilePath, suffix: &str) -> (r: FilePath)
    ensures
        r@ == at(path@.dir, path@.name + path@.tail + suffix@),
{
    let mut name: String = text::join(path.name.as_str(), path.tail.as_str());
    name.append(suffix);
    let r = FilePath { dir: path.dir.clone(), name, tail: String::new() };
    assert(r@.tail =~= Seq::empty());
    r
}

/// Where a file is kept while it is downloaded.
pub fn part_path(path: &FilePath) -> (r: FilePath)
    ensures
        r@ == part_of(path@),
{
    with_suffix(path, ".part")
}

/// Where the state of a download is kept, beside its part file.
pub fn sidecar_path(part: &FilePath) -> (r: FilePath)
    ensures
        r@ == sidecar_of(part@),
{
    with_suffix(part, ".mdm.json")
}

/// How many names are tried before giving up.
pub const MAX_CANDIDATES: u32 = 10_000;

/// What came of creating a part file that must not exist yet.
#[derive(Debug)]
pub enum Created {
    /// It was created, and is now ours.
    Made,
    /// It exists already: another download has this name.
    Taken,
    /// It could not be created, for the reason given.
    Failed(String),
}

/// `is_there` answered `yes` for the path `p`.
pub open spec fn said<E: Fn(&FilePath) -> bool>(is_there: E, p: PathView, yes: bool) -> bool {
    exists|q: FilePath| #[trigger] q@ == p && call_ensures(is_there, (&q,), yes)
}

/// `create` gave `c` for the path `p`.
pub open spec fn gave<C: Fn(&FilePath) -> Created>(create: C, p: PathView, c: Created) -> bool {
    exists|q: FilePath| #[trigger] q@ == p && call_ensures(create, (&q,), c)
}

/// Candidate `i` was not free: there is a file of that name, or a part file.
pub open spec fn occupied<E: Fn(&FilePath) -> bool, C: Fn(&FilePath) -> Created>(
    path: PathView,
    is_there: E,
    create: C,
    i: nat,
) -> bool {
    ||| said(is_there, candidate(path, i), true)
    ||| said(is_there, candidate(path, i), false) && gave(
        create,
        part_of(candidate(path, i)),
        Created::Taken,
    )
}

/// Picks a free name and claims it at once by creating its part file, which
/// must not exist: of two downloads that want the same name only one gets it.
/// `is_there` tells whether there is such a file, `create` creates a part file.
pub fn reserve_path<E: Fn(&FilePath) -> bool, C: Fn(&FilePath) -> Created>(
    path: &FilePath,
    is_there: E,
    create: C,
) -> (r: Result<FilePath, String>)
    requires
        forall|p: FilePath| call_requires(is_there, (&p,)),
        forall|p: FilePath| call_requires(create, (&p,)),
    ensures
        match r {
            Ok(c) => exists|k: nat|
                {
                    &&& k < MAX_CANDIDATES
                    &&& c@ == #[trigger] candidate(path@, k)
                    &&& said(is_there, c@, false)
                    &&& gave(create, part_of(c@), Created::Made)
                    &&& forall|i: nat| i < k ==> #[trigger] occupied(path@, is_there, create, i)
                },
            Err(e) => {
                ||| {
                    &&& e@ == "troppi file con lo stesso nome in Downloads"@
                    &&& forall|i: nat|
                        i < MAX_CANDIDATES ==> #[trigger] occupied(path@, is_there, create, i)
                }
                ||| exists|k: nat, why: String|
                    {
                        &&& k < MAX_CANDIDATES
                        &&& said(is_there, candidate(path@, k), false)
                        &&& #[trigger] gave(
                            create,
                            part_of(candidate(path@, k)),
                            Created::Failed(why),
                        )
                        &&& e@ == "creazione del file .part: "@ + why@
                        &&& forall|i: nat| i < k ==> #[trigger] occupied(path@, is_there, create, i)
                    }
            },
        },
{
    let mut i: u32 = 0;
    while i < MAX_CANDIDATES
        invariant
            i <= MAX_CANDIDATES,
            forall|p: FilePath| call_requires(is_there, (&p,)),
            forall|p: FilePath| call_requires(create, (&p,)),
            forall|j: nat| j < i ==> #[trigger] occupied(path@, is_there, create, j),
        decreases MAX_CANDIDATES - i,
    {
        let cand = nth_candidate(path, i);
        let there = is_there(&cand);
        assert(said(is_there, candidate(path@, i as nat), there));
        if !there {
            let part = part_path(&cand);
            let made = create(&part);
            assert(gave(create, part_of(candidate(path@, i as nat)), made));
            match made {
                Created::Made => {
                    return Ok(cand);
                },
                Created::Taken => {},
                Created::Failed(why) => {
                    let e = text::join("creazione del file .part: ", why.as_str());
                    proof {
                        let k = i as nat;
                        assert(gave(create, part_of(candidate(path@, k)), Created::Failed(why)));
                    }
                    return Err(e);
                },
            }
        }
        assert(occupied(path@, is_there, create, i as nat));
        i = i + 1;
    }
    Err(text::owned("troppi file con lo stesso nome in Downloads"))
}

/// The first name of which there is no file yet, without claiming it; the
/// path itself if every one of them is taken.
pub fn free_name<E: Fn(&FilePath) -> bool>(path: &FilePath, is_there: E) -> (r: FilePath)
    requires
        forall|p: FilePath| call_requires(is_there, (&p,)),
    ensures
        ({
            ||| exists|k: nat|
                {
                    &&& r@ == #[trigger] candidate(path@, k)
                    &&& k <= u32::MAX
                    &&& said(is_there, r@, false)
                    &&& forall|i: nat|
                        i < k ==> said(is_there, #[trigger] candidate(path@, i), true)
                }
            ||| r@ == path@ && forall|i: nat|
                i <= u32::MAX ==> said(is_there, #[trigger] candidate(path@, i), true)
        }),
{
    let mut i: u32 = 0;
    loop
        invariant
            forall|p: FilePath| call_requires(is_there, (&p,)),
            forall|j: nat| j < i ==> said(is_there, #[trigger] candidate(path@, j), true),
        decreases u32::MAX - i,
    {
        let cand = nth_candidate(path, i);
        let there = is_there(&cand);
        assert(said(is_there, candidate(path@, i as nat), there));
        if !there {
            return cand;
        }
        if i == u32::MAX {
            return path.clone();
        }
        i = i + 1;
    }
}

/// A name that was made fit is one: it is not empty, holds nothing that a file
/// system refuses, neither starts nor ends with a dot or a blank, is no device
/// name, and making it fit again changes nothing.
pub proof fn sanitized_names_are_fit(name: Seq<char>)
    ensures
        sanitized(name).len() > 0,
        is_file_name(sanitized(name)),
        forall|i: int|
            0 <= i < sanitized(name).len() ==> clean_char(#[trigger] sanitized(name)[i])
                == sanitized(name)[i],
        !edge().holds(sanitized(name)[0]),
        !edge().holds(sanitized(name).last()),
        !is_reserved(sanitized(name)),
        sanitized(sanitized(name)) == sanitized(name),
{
    let t = text::trim(clean(name), edge());
    text::lemma_trim(clean(name), edge());
    let s = sanitized(name);
    reveal_strlit("download");
    assert forall|i: int| 0 <= i < t.len() implies clean_char(#[trigger] t[i]) == t[i] by {
        let j = i + clean(name).len() - text::trim_start(clean(name), edge()).len();
        text::lemma_trim_start(clean(name), edge());
        text::lemma_trim_end(text::trim_start(clean(name), edge()), edge());
        assert(t[i] == clean(name)[j]);
        assert(clean(name)[j] == clean_char(name[j]));
    }
    if t.len() == 0 {
        assert("download"@.len() == 8);
        lemma_not_reserved(s);
    } else if is_reserved(t) {
        assert(s[0] == '_');
        assert(s.last() == t.last());
        lemma_not_reserved(s);
    }
    assert(clean(s) =~= s);
    assert(text::trim_start(s, edge()) == s);
    assert(text::trim_end(s, edge()) == s);
}

/// A name whose first letter starts no device name is not reserved.
proof fn lemma_not_reserved(s: Seq<char>)
    requires
        s.len() > 0,
        s[0] == '_' || s[0] == 'd',
    ensures
        !is_reserved(s),
{
    let b = text::before(s, Class::One('.'));
    text::lemma_first_of_is(s, Class::One('.'));
    let u = text::upper(b);
    assert(text::first_of(s, Class::One('.')) > 0);
    assert(u.len() > 0 && u[0] == text::upper_char(s[0]));
    assert(text::upper_char('d') == 'D');
    assert(u[0] == '_' || u[0] == 'D');
    if u.len() == 4 {
        assert(u.take(3)[0] == u[0]);
        assert(seq!['C', 'O', 'M'][0] == 'C');
        assert(seq!['L', 'P', 'T'][0] == 'L');
    }
    assert(seq!['C', 'O', 'N'][0] == 'C');
    assert(seq!['P', 'R', 'N'][0] == 'P');
    assert(seq!['A', 'U', 'X'][0] == 'A');
    assert(seq!['N', 'U', 'L'][0] == 'N');
}

/// No two of the names tried for one file are the same.
pub proof fn candidates_are_all_different(name: Seq<char>, i: nat, j: nat)
    requires
        i != j,
    ensures
        candidate_name(name, i) != candidate_name(name, j),
{
    lemma_ext_start(name);
    if i > 0 {
        lemma_candidate_number(name, i);
        text::lemma_decimal(i);
    }
    if j > 0 {
        lemma_candidate_number(name, j);
        text::lemma_decimal(j);
    }
    if i > 0 && j > 0 && candidate_name(name, i) == candidate_name(name, j) {
        assert(text::decimal(i) == text::decimal(j));
    }
}

/// The number stands between the parentheses, behind a blank.
proof fn lemma_candidate_number(name: Seq<char>, i: nat)
    requires
        i > 0,
    ensures
        candidate_name(name, i).len() == stem(name).len() + 3 + text::decimal(i).len() + name.len()
            - ext_start(name),
        candidate_name(name, i).subrange(
            stem(name).len() as int + 2,
            stem(name).len() as int + 2 + text::decimal(i).len(),
        ) == text::decimal(i),
        candidate_name(name, i)[stem(name).len() as int] == ' ',
{
    lemma_ext_start(name);
    reveal_strlit(" (");
    reveal_strlit(")");
    let st = stem(name).len() as int;
    let c = candidate_name(name, i);
    let d = text::decimal(i);
    assert(c.len() == st + 3 + d.len() + name.len() - ext_start(name));
    assert(c.subrange(st + 2, st + 2 + d.len()) =~= d);
}

/// Every name tried for a file has the file's own extension.
pub proof fn candidates_keep_the_extension(name: Seq<char>, i: nat)
    ensures
        candidate_name(name, i).skip(ext_start(candidate_name(name, i))) == name.skip(
            ext_start(name),
        ),
{
    if i > 0 {
        lemma_ext_start(name);
        lemma_candidate_number(name, i);
        reveal_strlit(" (");
        reveal_strlit(")");
        text::lemma_decimal(i);
        let at = ext_start(name);
        let st = stem(name).len() as int;
        let c = candidate_name(name, i);
        let d = text::decimal(i);
        let k = st + 3 + d.len();
        assert(c.skip(k) =~= name.skip(at));
        assert(is_file_name(c)) by {
            if c == seq!['.', '.'] {
                assert(c.len() == 2);
            }
            if c == seq!['.'] {
                assert(c.len() == 1);
            }
        }
        assert forall|x: int| st <= x < k implies #[trigger] c[x] != '.' by {
            if st + 2 <= x < st + 2 + d.len() {
                assert(c[x] == d[x - st - 2]);
                assert(text::is_digit(d[x - st - 2]));
            }
        }
        if at < name.len() {
            assert(c[k] == '.');
            assert forall|x: int| k < x < c.len() implies #[trigger] c[x] != '.' by {
                assert(c[x] == name[x - k + at]);
            }
            lemma_last_dot(c, k);
        } else {
            lemma_after_last(c, '.');
            let n = text::after_last(c, '.').len();
            let dot = c.len() - n - 1;
            if dot > 0 {
                assert(c[dot] == '.');
                if dot < st {
                    assert(c[dot] == name[dot]);
                }
            }
            assert(ext_start(c) == c.len());
        }
    }
}

/// A file is never given the name of its own part file or of what is kept
/// beside that.
pub proof fn candidates_are_apart_from_the_part(path: PathView, i: nat)
    requires
        path.well_formed(),
    ensures
        candidate(path, i) != part_of(path),
        candidate(path, i) != sidecar_of(part_of(path)),
        part_of(path) != sidecar_of(part_of(path)),
{
    reveal_strlit(".part");
    reveal_strlit(".mdm.json");
    let c = candidate_name(path.name, i);
    if i > 0 {
        lemma_ext_start(path.name);
        lemma_candidate_number(path.name, i);
        let st = stem(path.name).len() as int;
        assert(c[st] == ' ');
        let p = part_of(path).name;
        assert(p[st] != ' ') by {
            if st < path.name.len() {
                assert(p[st] == path.name[st]);
            } else if path.tail.len() > 0 {
                assert(p[st] == path.tail[0]);
            }
        }
        assert(sidecar_of(part_of(path)).name[st] == p[st]);
    } else {
        assert(part_of(path).name.len() > path.name.len());
        assert(sidecar_of(part_of(path)).name.len() > path.name.len());
    }
    assert(sidecar_of(part_of(path)).name.len() > part_of(path).name.len());
}

/// The name of a part file leads back to the file, and that of a sidecar to
/// the part file.
pub proof fn part_and_sidecar_lead_back(path: PathView)
    ensures
        text::before_suffix(part_of(path).name, ".part"@) == Some(path.name + path.tail),
        text::before_suffix(sidecar_of(part_of(path)).name, ".mdm.json"@) == Some(
            part_of(path).name,
        ),
{
    let p = part_of(path).name;
    let s = sidecar_of(part_of(path)).name;
    assert(p.skip(p.len() - ".part"@.len()) =~= ".part"@);
    assert(p.take(p.len() - ".part"@.len()) =~= path.name + path.tail);
    assert(s.skip(s.len() - ".mdm.json"@.len()) =~= ".mdm.json"@);
    assert(s.take(s.len() - ".mdm.json"@.len()) =~= p);
}

/// No file name holds one of the nine characters that file systems keep for
/// themselves, or a control character; each of them becomes an underscore, no
/// other character changes, and all else is as if it had been so from the start.
pub proof fn refused_characters_become_underscores(name: Seq<char>, c: char, i: int)
    requires
        c == '<' || c == '>' || c == ':' || c == '"' || c == '/' || c == '\\' || c == '|' || c
            == '?' || c == '*' || (c as u32) < 32,
    ensures
        !sanitized(name).contains(c),
        !clean(name).contains(c),
        clean(name).len() == name.len(),
        0 <= i < name.len() && name[i] == c ==> clean(name)[i] == '_',
        0 <= i < name.len() && clean(name)[i] != name[i] ==> clean(name)[i] == '_',
        sanitized(clean(name)) == sanitized(name),
{
    assert(clean(clean(name)) =~= clean(name));
    sanitized_names_are_fit(name);
    let s = sanitized(name);
    if s.contains(c) {
        let k = choose|k: int| 0 <= k < s.len() && s[k] == c;
        assert(clean_char(s[k]) == s[k]);
    }
}

/// A name of which nothing is refused keeps its characters, and loses no more
/// than the dots and blanks at its ends.
pub proof fn fit_names_stay(p: Seq<char>, name: Seq<char>, q: Seq<char>)
    requires
        name.len() > 0,
        forall|i: int|
            #![trigger name[i]]
            0 <= i < name.len() ==> name[i] != '<' && name[i] != '>' && name[i] != ':' && name[i]
                != '"' && name[i] != '/' && name[i] != '\\' && name[i] != '|' && name[i] != '?'
                && name[i] != '*' && (name[i] as u32) >= 32,
        name[0] != '.' && name[0] != ' ',
        name.last() != '.' && name.last() != ' ',
        forall|i: int| 0 <= i < p.len() ==> (#[trigger] p[i]) == '.' || p[i] == ' ',
        forall|i: int| 0 <= i < q.len() ==> (#[trigger] q[i]) == '.' || q[i] == ' ',
    ensures
        !is_reserved(name) ==> sanitized(p + name + q) == name,
        is_reserved(name) ==> sanitized(p + name + q) == seq!['_'] + name,
        sanitized(p + q) == "download"@,
        sanitized(name) == sanitized(p + name + q),
{
    let none = Seq::<char>::empty();
    assert(clean(p + name + q) =~= p + name + q);
    assert(clean(p + q) =~= p + q);
    assert(clean(name) =~= name);
    text::only_the_ends_are_trimmed(p, name, q, edge());
    text::only_the_ends_are_trimmed(none, name, none, edge());
    text::only_the_ends_are_trimmed(p + q, none, none, edge());
    assert(none + name + none =~= name);
}

/// The names that are devices: four of three letters, and two of three letters
/// with a digit other than nought behind them. No other is one.
pub proof fn devices_have_these_names(s: Seq<char>, d: char)
    ensures
        is_device("CON"@) && is_device("PRN"@) && is_device("AUX"@) && is_device("NUL"@),
        '1' <= d <= '9' ==> is_device("COM"@.push(d)) && is_device("LPT"@.push(d)),
        !('1' <= d <= '9') ==> !is_device("COM"@.push(d)) && !is_device("LPT"@.push(d)),
        is_device(s) ==> s.len() == 3 || s.len() == 4,
        is_device(s) && s.len() == 3 ==> s == "CON"@ || s == "PRN"@ || s == "AUX"@ || s == "NUL"@,
        is_device(s) && s.len() == 4 ==> '1' <= s[3] <= '9' && (s == "COM"@.push(s[3]) || s
            == "LPT"@.push(s[3])),
{
    reveal_strlit("CON");
    reveal_strlit("PRN");
    reveal_strlit("AUX");
    reveal_strlit("NUL");
    reveal_strlit("COM");
    reveal_strlit("LPT");
    assert("CON"@ =~= seq!['C', 'O', 'N']);
    assert("PRN"@ =~= seq!['P', 'R', 'N']);
    assert("AUX"@ =~= seq!['A', 'U', 'X']);
    assert("NUL"@ =~= seq!['N', 'U', 'L']);
    assert("COM"@ =~= seq!['C', 'O', 'M']);
    assert("LPT"@ =~= seq!['L', 'P', 'T']);
    assert("COM"@.push(d).take(3) =~= seq!['C', 'O', 'M']);
    assert("LPT"@.push(d).take(3) =~= seq!['L', 'P', 'T']);
    if s.len() == 4 {
        assert(s =~= s.take(3).push(s[3]));
    }
}

/// A device's name is reserved in large letters and in small ones, and with
/// any extension behind it.
pub proof fn devices_are_reserved_in_any_form(name: Seq<char>, rest: Seq<char>)
    requires
        !name.contains('.'),
    ensures
        is_reserved(name.push('.') + rest) == is_reserved(name),
        is_reserved(text::upper(name)) == is_reserved(name),
        is_device(name) ==> is_reserved(name),
{
    let k = Class::One('.');
    assert forall|i: int| 0 <= i < name.len() implies !k.holds(#[trigger] name[i]) by {
        assert(name.contains(name[i]));
    }
    text::texts_are_cut_at_the_first(name, '.', rest, k);
    let u = text::upper(name);
    assert forall|i: int| 0 <= i < u.len() implies !k.holds(#[trigger] u[i]) by {
        assert(u[i] == text::upper_char(name[i]));
    }
    text::texts_are_cut_at_the_first(u, '.', rest, k);
    assert(text::upper(u) =~= u);
    if is_device(name) {
        assert(u =~= name) by {
            devices_have_these_names(name, '1');
            reveal_strlit("CON");
            reveal_strlit("PRN");
            reveal_strlit("AUX");
            reveal_strlit("NUL");
            reveal_strlit("COM");
            reveal_strlit("LPT");
        }
    }
}

/// Every name is that of a file but nothing, one dot and two dots; only those
/// are not shown.
pub proof fn most_names_are_those_of_files(p: PathView)
    ensures
        p.name.len() == 0 ==> !p.names_a_file(),
        p.name == "."@ || p.name == ".."@ ==> !p.names_a_file(),
        p.name.len() > 2 ==> p.names_a_file(),
        p.name.len() > 0 && p.name[0] != '.' ==> p.names_a_file(),
        p.name.len() == 2 && p.name[1] != '.' ==> p.names_a_file(),
        p.names_a_file() ==> p.shown() == p.name,
        !p.names_a_file() ==> p.shown().len() == 0,
{
    reveal_strlit(".");
    reveal_strlit("..");
    assert("."@ =~= seq!['.']);
    assert(".."@ =~= seq!['.', '.']);
    assert(seq!['.'].len() == 1 && seq!['.', '.'].len() == 2);
    assert(seq!['.'][0] == '.');
    assert(seq!['.', '.'][0] == '.' && seq!['.', '.'][1] == '.');
}

/// A file in a folder is in it, under its name. Nothing, or a single dot, is
/// the folder itself.
pub proof fn files_are_in_their_folders(
    folder: Seq<char>,
    parent: Option<Seq<char>>,
    own: Seq<char>,
    file: Seq<char>,
)
    ensures
        file.len() > 0 && file != "."@ ==> inside(folder, parent, own, file).dir == folder
            && inside(folder, parent, own, file).name == file && inside(
            folder,
            parent,
            own,
            file,
        ).tail.len() == 0,
        file.len() == 0 || file == "."@ ==> (parent matches Some(p) ==> {
            let r = inside(folder, parent, own, file);
            r.dir == p && r.name == own && r.tail == "/"@ + file
        }),
        (file.len() == 0 || file == "."@) && parent is None ==> {
            let r = inside(folder, parent, own, file);
            r.dir.len() == 0 && r.name.len() == 0 && r.tail == folder + file
        },
        at(folder, file).dir == folder && at(folder, file).name == file && at(
            folder,
            file,
        ).tail.len() == 0,
{
    reveal_strlit(".");
    reveal_strlit("/");
    assert("."@ =~= seq!['.']);
    assert("/"@ =~= seq!['/']);
}

/// The name of a file is its stem and its extension. The extension is empty,
/// or the last dot and what follows it; the stem is never empty.
pub proof fn names_are_stem_and_extension(name: Seq<char>, a: Seq<char>, b: Seq<char>)
    requires
        is_file_name(name),
    ensures
        name == stem(name) + name.skip(ext_start(name)),
        stem(name).len() > 0,
        name == a.push('.') + b && a.len() > 0 && !b.contains('.') ==> stem(name) == a
            && name.skip(ext_start(name)) == seq!['.'] + b,
        !name.skip(1).contains('.') ==> stem(name) == name && ext_start(name) == name.len(),
{
    lemma_ext_start(name);
    assert(name =~= name.take(ext_start(name)) + name.skip(ext_start(name)));
    if name == a.push('.') + b && a.len() > 0 && !b.contains('.') {
        text::texts_are_cut_after_the_last(a, '.', b);
        assert(name.take(a.len() as int) =~= a);
        assert(name.skip(a.len() as int) =~= seq!['.'] + b);
    }
    if !name.skip(1).contains('.') {
        if ext_start(name) < name.len() {
            assert(name.skip(1)[ext_start(name) - 1] == '.');
        }
        assert(name.take(name.len() as int) =~= name);
    }
}

/// The first name tried is the file's own. Every further one is in the same
/// folder and bears its number, in parentheses between the stem and the
/// extension.
#[verifier::rlimit(40)]
pub proof fn candidates_bear_their_numbers(path: PathView, i: nat)
    ensures
        candidate(path, 0) == path,
        candidate_name(path.name, 0) == path.name,
        i > 0 ==> candidate(path, i).dir == path.dir && candidate(path, i).tail.len() == 0,
        i > 0 && path.names_a_file() ==> ({
            let name = path.name;
            let c = candidate(path, i).name;
            let k = stem(name).len() as int;
            let n = text::decimal(i).len() as int;
            &&& c.take(k) == name.take(k)
            &&& c[k] == ' ' && c[k + 1] == '('
            &&& text::parsed(c.subrange(k + 2, k + 2 + n), i) == Some(i)
            &&& c[k + 2 + n] == ')'
            &&& c.skip(k + 3 + n) == name.skip(k)
        }),
        i > 0 && !path.names_a_file() ==> candidate(path, i).name == " ("@ + text::decimal(i)
            + ")"@,
        MAX_CANDIDATES == 10_000,
{
    if i > 0 && !path.names_a_file() {
        lemma_ext_start(path.name);
        assert(candidate_name(path.name, i) =~= " ("@ + text::decimal(i) + ")"@);
    }
    if i > 0 && path.names_a_file() {
        let name = path.name;
        lemma_ext_start(name);
        lemma_candidate_number(name, i);
        reveal_strlit(" (");
        reveal_strlit(")");
        text::number_reads_back(i, i);
        let c = candidate_name(name, i);
        let k = stem(name).len() as int;
        let n = text::decimal(i).len() as int;
        assert(c.take(k) =~= name.take(k));
        assert(c.skip(k + 3 + n) =~= name.skip(k));
    }
}

/// A part file stands beside its file, and what is kept of a download beside
/// the part file; those of different files are different.
pub proof fn part_files_stand_beside_their_files(a: PathView, b: PathView)
    requires
        a.tail.len() == 0,
        b.tail.len() == 0,
    ensures
        part_of(a).dir == a.dir && part_of(a).tail.len() == 0,
        sidecar_of(a).dir == a.dir && sidecar_of(a).tail.len() == 0,
        part_of(a).name == a.name + ".part"@,
        sidecar_of(a).name == a.name + ".mdm.json"@,
        part_of(a) == part_of(b) ==> a.dir == b.dir && a.name == b.name,
{
    assert(a.name + a.tail =~= a.name);
    assert(b.name + b.tail =~= b.name);
    part_and_sidecar_lead_back(a);
    part_and_sidecar_lead_back(b);
}

/// A name is taken exactly if there is a file of it, or its part file could
/// not be created because there is one.
pub proof fn names_are_taken_by_files_and_part_files<
    E: Fn(&FilePath) -> bool,
    C: Fn(&FilePath) -> Created,
>(path: PathView, is_there: E, create: C, i: nat, p: FilePath, q: FilePath)
    requires
        p@ == candidate(path, i),
        q@ == part_of(candidate(path, i)),
    ensures
        call_ensures(is_there, (&p,), true) ==> occupied(path, is_there, create, i),
        call_ensures(is_there, (&p,), false) && call_ensures(create, (&q,), Created::Taken)
            ==> occupied(path, is_there, create, i),
        occupied(path, is_there, create, i) ==> (exists|x: FilePath|
            #[trigger] x@ == candidate(path, i) && call_ensures(is_there, (&x,), true)) || (exists|
            y: FilePath,
        | #[trigger]
            y@ == part_of(candidate(path, i)) && call_ensures(create, (&y,), Created::Taken)),
{
}

/// A path is well formed unless what stands behind its name starts with a
/// blank; a file in a folder always is.
pub proof fn files_in_folders_are_well_formed(p: PathView, dir: Seq<char>, name: Seq<char>)
    ensures
        at(dir, name).well_formed(),
        p.tail.len() == 0 ==> p.well_formed(),
        p.tail.len() > 0 ==> p.well_formed() == (p.tail[0] != ' '),
{
}

} // verus!
