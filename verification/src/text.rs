//! Text as a sequence of characters: searching, cutting, trimming, numbers.
//!
//! The specifications work on `Seq<char>`, the view of `str` and `String`; the
//! executable functions work on `Vec<char>`, between [`to_chars`] and
//! [`from_chars`].

use vstd::prelude::*;
use vstd::string::*;

verus! {

/// `String::push` appends one character.
pub assume_specification[ String::push ](s: &mut String, c: char)
    ensures
        final(s)@ == old(s)@.push(c),
;

/// The characters of a text.
pub fn to_chars(s: &str) -> (r: Vec<char>)
    ensures
        r@ == s@,
{
    let mut r: Vec<char> = Vec::new();
    for c in it: s.chars()
        invariant
            r@ == it.seq().take(it.index() as int),
            it.seq() == s@,
    {
        r.push(c);
    }
    r
}

/// The text that a list of characters spells.
pub fn from_chars(v: &Vec<char>) -> (r: String)
    ensures
        r@ == v@,
{
    let mut r: String = String::new();
    let mut i: usize = 0;
    while i < v.len()
        invariant
            i <= v@.len(),
            r@ == v@.take(i as int),
        decreases v@.len() - i,
    {
        r.push(v[i]);
        i = i + 1;
    }
    r
}

/// A copy of a text.
pub fn owned(s: &str) -> (r: String)
    ensures
        r@ == s@,
{
    s.to_owned()
}

/// Two texts one after the other.
pub fn join(a: &str, b: &str) -> (r: String)
    ensures
        r@ == a@ + b@,
{
    let mut r: String = a.to_owned();
    r.append(b);
    r
}

/// Whether two texts hold the same characters.
pub fn same(a: &str, b: &str) -> (r: bool)
    ensures
        r == (a@ == b@),
{
    let x = to_chars(a);
    let y = to_chars(b);
    if x.len() != y.len() {
        return false;
    }
    let mut i: usize = 0;
    while i < x.len()
        invariant
            x@ == a@,
            y@ == b@,
            x@.len() == y@.len(),
            i <= x@.len(),
            forall|j: int| 0 <= j < i ==> x@[j] == y@[j],
        decreases x@.len() - i,
    {
        if x[i] != y[i] {
            return false;
        }
        i = i + 1;
    }
    assert(x@ =~= y@);
    true
}

/// A set of characters to search for or to trim.
#[derive(Debug, Clone, Copy, PartialEq, Eq, Structural)]
pub enum Class {
    /// What Unicode calls white space.
    White,
    One(char),
    Two(char, char),
    Three(char, char, char),
}

/// The characters with Unicode's `White_Space` property.
pub open spec fn is_white(c: char) -> bool {
    let n = c as u32;
    ||| 0x9 <= n <= 0xD
    ||| n == 0x20
    ||| n == 0x85
    ||| n == 0xA0
    ||| n == 0x1680
    ||| 0x2000 <= n <= 0x200A
    ||| n == 0x2028
    ||| n == 0x2029
    ||| n == 0x202F
    ||| n == 0x205F
    ||| n == 0x3000
}

impl Class {
    /// Whether the set holds `c`.
    pub open spec fn holds(self, c: char) -> bool {
        match self {
            Class::White => is_white(c),
            Class::One(x) => c == x,
            Class::Two(x, y) => c == x || c == y,
            Class::Three(x, y, z) => c == x || c == y || c == z,
        }
    }

    /// Whether the set holds `c`.
    pub fn has(self, c: char) -> (r: bool)
        ensures
            r == self.holds(c),
    {
        match self {
            Class::White => {
                let n: u32 = c as u32;
                0x9 <= n && n <= 0xD || n == 0x20 || n == 0x85 || n == 0xA0 || n == 0x1680 || 0x2000
                    <= n && n <= 0x200A || n == 0x2028 || n == 0x2029 || n == 0x202F || n == 0x205F
                    || n == 0x3000
            },
            Class::One(x) => c == x,
            Class::Two(x, y) => c == x || c == y,
            Class::Three(x, y, z) => c == x || c == y || c == z,
        }
    }
}

/// Where the first character of `k` stands in `s`; the length of `s` if there
/// is none.
pub open spec fn first_of(s: Seq<char>, k: Class) -> int
    decreases s.len(),
{
    if s.len() == 0 || k.holds(s[0]) {
        0
    } else {
        1 + first_of(s.drop_first(), k)
    }
}

/// What stands before the first character of `k`; all of `s` if there is none.
pub open spec fn before(s: Seq<char>, k: Class) -> Seq<char> {
    s.take(first_of(s, k))
}

/// The first character of `k` is where no earlier one is.
pub proof fn lemma_first_of(s: Seq<char>, k: Class, i: int)
    requires
        0 <= i <= s.len(),
        forall|j: int| 0 <= j < i ==> !k.holds(#[trigger] s[j]),
        i == s.len() || k.holds(s[i]),
    ensures
        first_of(s, k) == i,
    decreases s.len(),
{
    if i > 0 {
        assert(!k.holds(s[0]));
        assert forall|j: int| 0 <= j < i - 1 implies !k.holds(#[trigger] s.drop_first()[j]) by {
            assert(s.drop_first()[j] == s[j + 1]);
        }
        lemma_first_of(s.drop_first(), k, i - 1);
    }
}

/// [`first_of`] is a position of `s` or its length, with no character of `k`
/// before it and one there.
pub proof fn lemma_first_of_is(s: Seq<char>, k: Class)
    ensures
        0 <= first_of(s, k) <= s.len(),
        forall|j: int| 0 <= j < first_of(s, k) ==> !k.holds(#[trigger] s[j]),
        first_of(s, k) < s.len() ==> k.holds(s[first_of(s, k)]),
    decreases s.len(),
{
    if s.len() > 0 && !k.holds(s[0]) {
        let t = s.drop_first();
        lemma_first_of_is(t, k);
        assert forall|j: int| 0 <= j < first_of(s, k) implies !k.holds(#[trigger] s[j]) by {
            if j > 0 {
                assert(s[j] == t[j - 1]);
            }
        }
    }
}

/// Where the first character of `k` stands.
pub fn find(s: &Vec<char>, k: Class) -> (r: usize)
    ensures
        r == first_of(s@, k),
        r <= s@.len(),
{
    let mut i: usize = 0;
    while i < s.len() && !k.has(s[i])
        invariant
            i <= s@.len(),
            forall|j: int| 0 <= j < i ==> !k.holds(#[trigger] s@[j]),
        decreases s@.len() - i,
    {
        i = i + 1;
    }
    proof {
        lemma_first_of(s@, k, i as int);
    }
    i
}

/// The part `lo..hi` of a text.
pub fn slice(s: &Vec<char>, lo: usize, hi: usize) -> (r: Vec<char>)
    requires
        lo <= hi <= s@.len(),
    ensures
        r@ == s@.subrange(lo as int, hi as int),
{
    let mut r: Vec<char> = Vec::new();
    let mut i: usize = lo;
    while i < hi
        invariant
            lo <= i <= hi <= s@.len(),
            r@ == s@.subrange(lo as int, i as int),
        decreases hi - i,
    {
        r.push(s[i]);
        i = i + 1;
        assert(s@.subrange(lo as int, i as int).drop_last() =~= s@.subrange(lo as int, i - 1));
    }
    r
}

/// What stands before the first character of `k`.
pub fn cut_before(s: &Vec<char>, k: Class) -> (r: Vec<char>)
    ensures
        r@ == before(s@, k),
{
    let i: usize = find(s, k);
    let r = slice(s, 0, i);
    assert(r@ =~= before(s@, k));
    r
}

/// What stands after the last `c`; all of `s` if there is none.
pub open spec fn after_last(s: Seq<char>, c: char) -> Seq<char>
    decreases s.len(),
{
    if s.len() == 0 || s.last() == c {
        Seq::empty()
    } else {
        after_last(s.drop_last(), c).push(s.last())
    }
}

/// What stands after the last `c`.
pub fn cut_after_last(s: &Vec<char>, c: char) -> (r: Vec<char>)
    ensures
        r@ == after_last(s@, c),
{
    let mut i: usize = s.len();
    assert(s@.take(i as int) =~= s@);
    while i > 0 && s[i - 1] != c
        invariant
            i <= s@.len(),
            after_last(s@, c) == after_last(s@.take(i as int), c) + s@.skip(i as int),
        decreases i,
    {
        proof {
            let t = s@.take(i as int);
            assert(t.drop_last() =~= s@.take(i - 1));
            assert(after_last(t, c) =~= after_last(t.drop_last(), c).push(s@[i - 1]));
            assert(after_last(t, c) + s@.skip(i as int) =~= after_last(t.drop_last(), c) + s@.skip(
                i - 1,
            ));
        }
        i = i - 1;
    }
    let r = slice(s, i, s.len());
    proof {
        assert(after_last(s@.take(i as int), c) =~= Seq::empty());
        assert(r@ =~= s@.skip(i as int));
    }
    r
}

/// `s` without the characters of `k` at its start.
pub open spec fn trim_start(s: Seq<char>, k: Class) -> Seq<char>
    decreases s.len(),
{
    if s.len() > 0 && k.holds(s[0]) { trim_start(s.drop_first(), k) } else { s }
}

/// `s` without the characters of `k` at its end.
pub open spec fn trim_end(s: Seq<char>, k: Class) -> Seq<char>
    decreases s.len(),
{
    if s.len() > 0 && k.holds(s.last()) { trim_end(s.drop_last(), k) } else { s }
}

/// `s` without the characters of `k` at either end.
pub open spec fn trim(s: Seq<char>, k: Class) -> Seq<char> {
    trim_end(trim_start(s, k), k)
}

/// `s` without the characters of `k` at its start.
pub fn strip_start(s: &Vec<char>, k: Class) -> (r: Vec<char>)
    ensures
        r@ == trim_start(s@, k),
{
    let mut i: usize = 0;
    assert(s@.skip(0) =~= s@);
    while i < s.len() && k.has(s[i])
        invariant
            i <= s@.len(),
            trim_start(s@, k) == trim_start(s@.skip(i as int), k),
        decreases s@.len() - i,
    {
        assert(s@.skip(i as int).drop_first() =~= s@.skip(i + 1));
        i = i + 1;
    }
    let r = slice(s, i, s.len());
    assert(r@ =~= s@.skip(i as int));
    r
}

/// `s` without the characters of `k` at its end.
pub fn strip_end(s: &Vec<char>, k: Class) -> (r: Vec<char>)
    ensures
        r@ == trim_end(s@, k),
{
    let mut i: usize = s.len();
    assert(s@.take(i as int) =~= s@);
    while i > 0 && k.has(s[i - 1])
        invariant
            i <= s@.len(),
            trim_end(s@, k) == trim_end(s@.take(i as int), k),
        decreases i,
    {
        assert(s@.take(i as int).drop_last() =~= s@.take(i - 1));
        i = i - 1;
    }
    let r = slice(s, 0, i);
    assert(r@ =~= s@.take(i as int));
    r
}

/// `s` without the characters of `k` at either end.
pub fn strip(s: &Vec<char>, k: Class) -> (r: Vec<char>)
    ensures
        r@ == trim(s@, k),
{
    let t = strip_start(s, k);
    strip_end(&t, k)
}

/// Trimming the start leaves a suffix that starts with no character of `k`.
pub proof fn lemma_trim_start(s: Seq<char>, k: Class)
    ensures
        trim_start(s, k).len() <= s.len(),
        trim_start(s, k) == s.skip(s.len() - trim_start(s, k).len()),
        trim_start(s, k).len() > 0 ==> !k.holds(trim_start(s, k)[0]),
        forall|i: int| 0 <= i < s.len() - trim_start(s, k).len() ==> k.holds(#[trigger] s[i]),
    decreases s.len(),
{
    if s.len() > 0 && k.holds(s[0]) {
        let t = s.drop_first();
        lemma_trim_start(t, k);
        let n = trim_start(t, k).len() as int;
        assert(t.skip(t.len() - n) =~= s.skip(s.len() - n));
        assert forall|i: int| 0 <= i < s.len() - n implies k.holds(#[trigger] s[i]) by {
            if i > 0 {
                assert(s[i] == t[i - 1]);
            }
        }
    } else {
        assert(s.skip(0) =~= s);
    }
}

/// Trimming the end leaves a prefix that ends with no character of `k`.
pub proof fn lemma_trim_end(s: Seq<char>, k: Class)
    ensures
        trim_end(s, k).len() <= s.len(),
        trim_end(s, k) == s.take(trim_end(s, k).len() as int),
        trim_end(s, k).len() > 0 ==> !k.holds(trim_end(s, k).last()),
        forall|i: int| trim_end(s, k).len() <= i < s.len() ==> k.holds(#[trigger] s[i]),
    decreases s.len(),
{
    if s.len() > 0 && k.holds(s.last()) {
        let t = s.drop_last();
        lemma_trim_end(t, k);
        let n = trim_end(t, k).len() as int;
        assert(t.take(n) =~= s.take(n));
        assert forall|i: int| n <= i < s.len() implies k.holds(#[trigger] s[i]) by {
            if i < s.len() - 1 {
                assert(s[i] == t[i]);
            }
        }
    } else {
        assert(s.take(s.len() as int) =~= s);
    }
}

/// Trimming leaves nothing to trim at either end.
pub proof fn lemma_trim(s: Seq<char>, k: Class)
    ensures
        trim(s, k).len() <= s.len(),
        trim(s, k).len() > 0 ==> !k.holds(trim(s, k)[0]) && !k.holds(trim(s, k).last()),
        trim(trim(s, k), k) == trim(s, k),
        forall|i: int|
            0 <= i < trim(s, k).len() ==> #[trigger] trim(s, k)[i] == s[i + s.len() - trim_start(
                s,
                k,
            ).len()],
{
    lemma_trim_start(s, k);
    lemma_trim_end(trim_start(s, k), k);
}

/// Where `pat` first occurs in `s`, if it does.
pub open spec fn find_text(s: Seq<char>, pat: Seq<char>) -> Option<int>
    decreases s.len(),
{
    if pat.is_prefix_of(s) {
        Some(0)
    } else if s.len() == 0 {
        None
    } else {
        match find_text(s.drop_first(), pat) {
            Some(i) => Some(i + 1),
            None => None,
        }
    }
}

/// Whether `s` goes on with `pat` at position `at`.
pub fn starts_at(s: &Vec<char>, at: usize, pat: &Vec<char>) -> (r: bool)
    requires
        at <= s@.len(),
    ensures
        r == pat@.is_prefix_of(s@.skip(at as int)),
{
    if s.len() - at < pat.len() {
        return false;
    }
    let mut i: usize = 0;
    while i < pat.len()
        invariant
            i <= pat@.len(),
            at + pat@.len() <= s@.len(),
            s@.len() <= usize::MAX,
            forall|j: int| 0 <= j < i ==> pat@[j] == s@[at + j],
        decreases pat@.len() - i,
    {
        if s[at + i] != pat[i] {
            assert(s@.skip(at as int)[i as int] != pat@[i as int]);
            assert(!(pat@ =~= s@.skip(at as int).subrange(0, pat@.len() as int)));
            return false;
        }
        i = i + 1;
    }
    assert(pat@ =~= s@.skip(at as int).subrange(0, pat@.len() as int));
    true
}

/// Where `pat` first occurs in `s`, if it does.
pub fn search(s: &Vec<char>, pat: &str) -> (r: Option<usize>)
    ensures
        match r {
            Some(i) => find_text(s@, pat@) == Some(i as int) && i + pat@.len() <= s@.len(),
            None => find_text(s@, pat@) is None,
        },
{
    let p = to_chars(pat);
    let mut i: usize = 0;
    assert(s@.skip(0) =~= s@);
    while !starts_at(s, i, &p)
        invariant
            p@ == pat@,
            i <= s@.len(),
            match find_text(s@.skip(i as int), pat@) {
                Some(j) => find_text(s@, pat@) == Some(i + j),
                None => find_text(s@, pat@) is None,
            },
        decreases s@.len() - i,
    {
        if i == s.len() {
            return None;
        }
        assert(s@.skip(i as int).drop_first() =~= s@.skip(i + 1));
        i = i + 1;
    }
    Some(i)
}

/// What follows `pat`, where `s` starts with it.
pub open spec fn after_prefix(s: Seq<char>, pat: Seq<char>) -> Option<Seq<char>> {
    if pat.is_prefix_of(s) { Some(s.skip(pat.len() as int)) } else { None }
}

/// What follows `pat`, where `s` starts with it.
pub fn strip_prefix(s: &Vec<char>, pat: &str) -> (r: Option<Vec<char>>)
    ensures
        match r {
            Some(v) => after_prefix(s@, pat@) == Some(v@),
            None => after_prefix(s@, pat@) is None,
        },
{
    let p = to_chars(pat);
    assert(s@.skip(0) =~= s@);
    if starts_at(s, 0, &p) {
        let r = slice(s, p.len(), s.len());
        assert(r@ =~= s@.skip(pat@.len() as int));
        Some(r)
    } else {
        None
    }
}

/// What stands before `pat`, where `s` ends with it.
pub open spec fn before_suffix(s: Seq<char>, pat: Seq<char>) -> Option<Seq<char>> {
    if s.len() >= pat.len() && s.skip(s.len() - pat.len()) == pat {
        Some(s.take(s.len() - pat.len()))
    } else {
        None
    }
}

/// What stands before `pat`, where `s` ends with it.
pub fn strip_suffix(s: &Vec<char>, pat: &str) -> (r: Option<Vec<char>>)
    ensures
        match r {
            Some(v) => before_suffix(s@, pat@) == Some(v@),
            None => before_suffix(s@, pat@) is None,
        },
{
    let p = to_chars(pat);
    if s.len() < p.len() {
        return None;
    }
    let at: usize = s.len() - p.len();
    let hit = starts_at(s, at, &p);
    proof {
        let t = s@.skip(at as int);
        assert(t.subrange(0, p@.len() as int) =~= t);
    }
    if hit {
        let r = slice(s, 0, at);
        assert(r@ =~= s@.take(at as int));
        Some(r)
    } else {
        None
    }
}

/// The pieces of `s` between the `c`s: always one more than there are `c`s.
pub open spec fn pieces<A>(s: Seq<A>, c: A) -> Seq<Seq<A>>
    decreases s.len(),
{
    if s.len() == 0 {
        seq![Seq::empty()]
    } else {
        let p = pieces(s.drop_last(), c);
        if s.last() == c {
            p.push(Seq::empty())
        } else {
            p.update(p.len() - 1, p.last().push(s.last()))
        }
    }
}

/// The views of a list of texts.
pub open spec fn views(v: Seq<Vec<char>>) -> Seq<Seq<char>> {
    v.map_values(|x: Vec<char>| x@)
}

/// There is always a piece.
pub proof fn lemma_pieces_len<A>(s: Seq<A>, c: A)
    ensures
        pieces(s, c).len() >= 1,
    decreases s.len(),
{
    if s.len() > 0 {
        lemma_pieces_len(s.drop_last(), c);
    }
}

/// The pieces of `s` between the `c`s.
pub fn split(s: &Vec<char>, c: char) -> (r: Vec<Vec<char>>)
    ensures
        views(r@) == pieces(s@, c),
        r@.len() >= 1,
{
    let mut r: Vec<Vec<char>> = Vec::new();
    let mut cur: Vec<char> = Vec::new();
    let mut i: usize = 0;
    assert(views(r@).push(cur@) =~= pieces(s@.take(0), c));
    while i < s.len()
        invariant
            i <= s@.len(),
            views(r@).push(cur@) == pieces(s@.take(i as int), c),
        decreases s@.len() - i,
    {
        let ghost before = pieces(s@.take(i as int), c);
        assert(s@.take(i + 1).drop_last() =~= s@.take(i as int));
        let ch: char = s[i];
        if ch == c {
            let ghost old_r = r@;
            let ghost old_cur = cur@;
            r.push(cur);
            cur = Vec::new();
            assert(views(r@) =~= views(old_r).push(old_cur));
            assert(views(r@).push(cur@) =~= before.push(Seq::empty()));
        } else {
            let ghost old_cur = cur@;
            cur.push(ch);
            assert(views(r@).push(cur@) =~= before.update(
                before.len() - 1,
                before.last().push(ch),
            ));
        }
        i = i + 1;
    }
    let ghost old_r = r@;
    let ghost last = cur@;
    r.push(cur);
    proof {
        assert(s@.take(s@.len() as int) =~= s@);
        assert(views(r@) =~= views(old_r).push(last));
    }
    r
}

/// ASCII capital letters for small ones.
pub open spec fn upper_char(c: char) -> char {
    if 'a' <= c <= 'z' { ((c as u32) - 32) as char } else { c }
}

/// `s` with ASCII capital letters for small ones.
pub open spec fn upper(s: Seq<char>) -> Seq<char> {
    s.map_values(|c: char| upper_char(c))
}

/// `s` with ASCII capital letters for small ones.
pub fn to_upper(s: &Vec<char>) -> (r: Vec<char>)
    ensures
        r@ == upper(s@),
{
    let mut r: Vec<char> = Vec::new();
    let mut i: usize = 0;
    while i < s.len()
        invariant
            i <= s@.len(),
            r@ == upper(s@).take(i as int),
        decreases s@.len() - i,
    {
        let c: char = s[i];
        let u: char = if 'a' <= c && c <= 'z' { ((c as u8) - 32) as char } else { c };
        r.push(u);
        i = i + 1;
        assert(upper(s@).take(i as int).drop_last() =~= upper(s@).take(i - 1));
    }
    assert(upper(s@).take(s@.len() as int) =~= upper(s@));
    r
}

/// `s` with `to` for every `from`.
pub open spec fn replaced(s: Seq<char>, from: char, to: char) -> Seq<char> {
    s.map_values(|c: char| if c == from { to } else { c })
}

/// `s` with `to` for every `from`.
pub fn replace(s: &str, from: char, to: char) -> (r: String)
    ensures
        r@ == replaced(s@, from, to),
{
    let v = to_chars(s);
    let mut r: String = String::new();
    let mut i: usize = 0;
    while i < v.len()
        invariant
            v@ == s@,
            i <= v@.len(),
            r@ == replaced(s@, from, to).take(i as int),
        decreases v@.len() - i,
    {
        let c: char = v[i];
        r.push(if c == from { to } else { c });
        i = i + 1;
        assert(replaced(s@, from, to).take(i as int).drop_last() =~= replaced(s@, from, to).take(
            i - 1,
        ));
    }
    assert(replaced(s@, from, to).take(v@.len() as int) =~= replaced(s@, from, to));
    r
}

/// The decimal digit for `d`.
pub open spec fn digit(d: int) -> char {
    (('0' as int) + d) as char
}

/// Whether `c` is one of the ten ASCII digits.
pub open spec fn is_digit(c: char) -> bool {
    '0' <= c <= '9'
}

/// `n` in decimal, without leading zeros.
pub open spec fn decimal(n: nat) -> Seq<char>
    decreases n,
{
    if n < 10 {
        seq![digit(n as int)]
    } else {
        decimal(n / 10).push(digit((n % 10) as int))
    }
}

fn digit_char(d: u64) -> (r: char)
    requires
        d < 10,
    ensures
        r == digit(d as int),
{
    (48u8 + d as u8) as char
}

/// `n` in decimal.
pub fn number(n: u64) -> (r: String)
    ensures
        r@ == decimal(n as nat),
    decreases n,
{
    if n < 10 {
        let mut r: String = String::new();
        r.push(digit_char(n));
        assert(r@ =~= decimal(n as nat));
        r
    } else {
        let mut r: String = number(n / 10);
        r.push(digit_char(n % 10));
        r
    }
}

/// Every character is an ASCII digit.
pub open spec fn all_digits(s: Seq<char>) -> bool {
    forall|i: int| 0 <= i < s.len() ==> is_digit(#[trigger] s[i])
}

/// The number that a row of digits stands for.
pub open spec fn value_of(s: Seq<char>) -> nat
    decreases s.len(),
{
    if s.len() == 0 {
        0
    } else {
        value_of(s.drop_last()) * 10 + ((s.last() as int - '0' as int) as nat)
    }
}

/// What `s` reads as an unsigned number no larger than `max`: digits only, at
/// least one, after at most one `+`.
pub open spec fn parsed(s: Seq<char>, max: nat) -> Option<nat> {
    let t = if s.len() > 0 && s[0] == '+' { s.drop_first() } else { s };
    if t.len() > 0 && all_digits(t) && value_of(t) <= max { Some(value_of(t)) } else { None }
}

/// More digits never make the number smaller.
proof fn lemma_value_grows(s: Seq<char>, i: int)
    requires
        0 <= i <= s.len(),
        all_digits(s),
    ensures
        value_of(s.take(i)) <= value_of(s),
    decreases s.len() - i,
{
    if i < s.len() {
        lemma_value_grows(s, i + 1);
        assert(s.take(i + 1).drop_last() =~= s.take(i));
    } else {
        assert(s.take(i) =~= s);
    }
}

/// Reads an unsigned number.
pub fn parse_u64(s: &Vec<char>) -> (r: Option<u64>)
    ensures
        match r {
            Some(n) => parsed(s@, u64::MAX as nat) == Some(n as nat),
            None => parsed(s@, u64::MAX as nat) is None,
        },
{
    let lo: usize = if s.len() > 0 && s[0] == '+' { 1 } else { 0 };
    let ghost t = if s@.len() > 0 && s@[0] == '+' { s@.drop_first() } else { s@ };
    assert(t =~= s@.skip(lo as int));
    if lo == s.len() {
        return None;
    }
    let mut n: u64 = 0;
    let mut i: usize = lo;
    assert(t.take(0) =~= Seq::empty());
    while i < s.len()
        invariant
            lo <= i <= s@.len(),
            t == s@.skip(lo as int),
            t == if s@.len() > 0 && s@[0] == '+' { s@.drop_first() } else { s@ },
            forall|j: int| 0 <= j < i - lo ==> is_digit(#[trigger] t[j]),
            n == value_of(t.take(i - lo)),
        decreases s@.len() - i,
    {
        let c: char = s[i];
        assert(t[i - lo] == c);
        if !('0' <= c && c <= '9') {
            return None;
        }
        let d: u64 = (c as u32 - 48) as u64;
        assert(t.take(i - lo + 1).drop_last() =~= t.take(i - lo));
        assert(value_of(t.take(i - lo + 1)) == n * 10 + d);
        if n > (u64::MAX - d) / 10 {
            proof {
                if all_digits(t) {
                    lemma_value_grows(t, i - lo + 1);
                }
            }
            return None;
        }
        n = n * 10 + d;
        i = i + 1;
    }
    assert(t.take(t.len() as int) =~= t);
    Some(n)
}

/// Writing a number and reading it back gives the number.
pub proof fn number_reads_back(n: nat, max: nat)
    requires
        n <= max,
    ensures
        parsed(decimal(n), max) == Some(n),
{
    lemma_decimal(n);
}

/// A number in decimal is a non-empty row of digits that stands for it.
pub proof fn lemma_decimal(n: nat)
    ensures
        decimal(n).len() > 0,
        all_digits(decimal(n)),
        value_of(decimal(n)) == n,
    decreases n,
{
    if n < 10 {
        let s = decimal(n);
        assert(s.drop_last() =~= Seq::empty());
        assert(value_of(s.drop_last()) == 0);
    } else {
        lemma_decimal(n / 10);
        let s = decimal(n);
        assert(s.drop_last() =~= decimal(n / 10));
    }
}

/// The blanks of ASCII are white space, and nothing else of it is. The
/// characters that can be seen are not.
pub proof fn blanks_are_white(c: char)
    ensures
        c == ' ' || c == '\t' || c == '\n' || c == '\r' ==> is_white(c),
        (c as u32) < 128 && is_white(c) ==> c == ' ' || 9 <= (c as u32) <= 13,
        9 <= (c as u32) <= 13 ==> is_white(c),
        is_digit(c) || 'a' <= c <= 'z' || 'A' <= c <= 'Z' ==> !is_white(c),
        (c as u32) >= 128 && is_white(c) ==> ({
            let n = c as u32;
            n == 0x85 || n == 0xA0 || n == 0x1680 || 0x2000 <= n <= 0x200A || n == 0x2028 || n
                == 0x2029 || n == 0x202F || n == 0x205F || n == 0x3000
        }),
        0x2000 <= (c as u32) <= 0x200A ==> is_white(c),
        (c as u32) == 0x85 || (c as u32) == 0xA0 || (c as u32) == 0x1680 || (c as u32) == 0x2028 || (
        c as u32) == 0x2029 || (c as u32) == 0x202F || (c as u32) == 0x205F || (c as u32) == 0x3000
            ==> is_white(c),
{
}

/// A set of characters holds those that were named, and no other.
pub proof fn sets_hold_what_was_named(x: char, y: char, z: char, c: char)
    ensures
        Class::One(x).holds(x),
        Class::Two(x, y).holds(x) && Class::Two(x, y).holds(y),
        Class::Three(x, y, z).holds(x) && Class::Three(x, y, z).holds(y) && Class::Three(
            x,
            y,
            z,
        ).holds(z),
        c != x ==> !Class::One(x).holds(c),
        c != x && c != y ==> !Class::Two(x, y).holds(c),
        c != x && c != y && c != z ==> !Class::Three(x, y, z).holds(c),
{
}

/// A text is cut at the first of the characters: what stands before it holds
/// none of them, and what follows does not matter.
pub proof fn texts_are_cut_at_the_first(a: Seq<char>, x: char, b: Seq<char>, k: Class)
    requires
        forall|i: int| 0 <= i < a.len() ==> !k.holds(#[trigger] a[i]),
        k.holds(x),
    ensures
        before(a, k) == a,
        before(a.push(x) + b, k) == a,
        first_of(a.push(x) + b, k) == a.len(),
        first_of(a, k) == a.len(),
{
    let s = a.push(x) + b;
    assert forall|j: int| 0 <= j < a.len() implies !k.holds(#[trigger] s[j]) by {
        assert(s[j] == a[j]);
    }
    assert(s[a.len() as int] == x);
    lemma_first_of(s, k, a.len() as int);
    lemma_first_of(a, k, a.len() as int);
    assert(s.take(a.len() as int) =~= a);
    assert(a.take(a.len() as int) =~= a);
}

/// What stands after the last `c` is what follows it, and all of a text
/// without one.
pub proof fn texts_are_cut_after_the_last(a: Seq<char>, c: char, b: Seq<char>)
    requires
        !b.contains(c),
    ensures
        after_last(b, c) == b,
        after_last(a.push(c) + b, c) == b,
    decreases b.len(),
{
    let s = a.push(c) + b;
    if b.len() == 0 {
        assert(s =~= a.push(c));
        assert(b =~= Seq::empty());
    } else {
        let t = b.drop_last();
        assert(b.last() != c) by {
            assert(b.contains(b[b.len() - 1]));
        }
        assert forall|i: int| 0 <= i < t.len() implies t[i] != c by {
            assert(b.contains(b[i]));
        }
        texts_are_cut_after_the_last(a, c, t);
        assert(s.drop_last() =~= a.push(c) + t);
        assert(b =~= t.push(b.last()));
    }
}

/// Trimming takes away what is to be trimmed at both ends, and nothing else.
pub proof fn only_the_ends_are_trimmed(p: Seq<char>, t: Seq<char>, q: Seq<char>, k: Class)
    requires
        forall|i: int| 0 <= i < p.len() ==> k.holds(#[trigger] p[i]),
        forall|i: int| 0 <= i < q.len() ==> k.holds(#[trigger] q[i]),
        t.len() > 0 ==> !k.holds(t[0]) && !k.holds(t.last()),
    ensures
        trim(p + t + q, k) == t,
        trim_start(p + t, k) == t,
        trim_end(t + q, k) == t,
        trim(p, k) == Seq::<char>::empty(),
{
    lemma_trims_start(p, t, k);
    lemma_trims_start(p, t + q, k);
    lemma_trims_start(p + q, Seq::empty(), k);
    lemma_trims_start(p, Seq::empty(), k);
    lemma_trims_end(t, q, k);
    assert(p + t + q =~= p + (t + q));
    assert(p + q + Seq::<char>::empty() =~= p + q);
    assert(p + Seq::<char>::empty() =~= p);
    if t.len() == 0 {
        assert(t =~= Seq::empty());
        assert(p + t + q =~= p + q);
        assert(t + q =~= q);
    } else {
        assert((t + q)[0] == t[0]);
    }
}

proof fn lemma_trims_start(p: Seq<char>, t: Seq<char>, k: Class)
    requires
        forall|i: int| 0 <= i < p.len() ==> k.holds(#[trigger] p[i]),
    ensures
        t.len() == 0 || !k.holds(t[0]) ==> trim_start(p + t, k) == t,
    decreases p.len(),
{
    let s = p + t;
    if p.len() == 0 {
        assert(s =~= t);
    } else {
        assert(s[0] == p[0]);
        assert forall|i: int| 0 <= i < p.drop_first().len() implies k.holds(
            #[trigger] p.drop_first()[i],
        ) by {
            assert(p.drop_first()[i] == p[i + 1]);
        }
        lemma_trims_start(p.drop_first(), t, k);
        assert(s.drop_first() =~= p.drop_first() + t);
    }
}

proof fn lemma_trims_end(t: Seq<char>, q: Seq<char>, k: Class)
    requires
        forall|i: int| 0 <= i < q.len() ==> k.holds(#[trigger] q[i]),
    ensures
        t.len() == 0 || !k.holds(t.last()) ==> trim_end(t + q, k) == t,
    decreases q.len(),
{
    let s = t + q;
    if q.len() == 0 {
        assert(s =~= t);
    } else {
        assert(s.last() == q.last());
        lemma_trims_end(t, q.drop_last(), k);
        assert(s.drop_last() =~= t + q.drop_last());
    }
}

/// A text is found where it first stands, and it is found if it stands
/// anywhere.
#[verifier::rlimit(40)]
pub proof fn the_first_place_is_found(s: Seq<char>, pat: Seq<char>)
    ensures
        find_text(s, pat) matches Some(i) ==> {
            &&& 0 <= i && i + pat.len() <= s.len()
            &&& s.subrange(i, i + pat.len()) == pat
            &&& forall|j: int| #![trigger s.subrange(j, j + pat.len())]
                0 <= j < i ==> s.subrange(j, j + pat.len()) != pat
        },
        find_text(s, pat) is None ==> forall|j: int| #![trigger s.subrange(j, j + pat.len())]
            0 <= j && j + pat.len() <= s.len() ==> s.subrange(j, j + pat.len()) != pat,
    decreases s.len(),
{
    let n = pat.len() as int;
    if pat.is_prefix_of(s) {
        assert(s.subrange(0, n) =~= pat);
    } else if s.len() > 0 {
        let t = s.drop_first();
        the_first_place_is_found(t, pat);
        assert forall|j: int| #![trigger s.subrange(j, j + n)]
            0 < j && j + n <= s.len() implies s.subrange(j, j + n) == t.subrange(
            j - 1,
            j - 1 + n,
        ) by {
            assert(s.subrange(j, j + n) =~= t.subrange(j - 1, j - 1 + n));
        }
        if n <= s.len() && s.subrange(0, n) == pat {
            assert(pat =~= s.subrange(0, n));
            assert(pat.is_prefix_of(s));
        }
        assert(s.subrange(0, n) != pat || n > s.len());
    }
}

/// What follows a beginning is what was put there, and a text begins with what
/// was taken off.
pub proof fn beginnings_and_ends_come_off(p: Seq<char>, t: Seq<char>, s: Seq<char>)
    ensures
        after_prefix(p + t, p) == Some(t),
        before_suffix(t + p, p) == Some(t),
        after_prefix(s, p) matches Some(u) ==> s == p + u,
        before_suffix(s, p) matches Some(u) ==> s == u + p,
{
    assert((p + t).subrange(0, p.len() as int) =~= p);
    assert((p + t).skip(p.len() as int) =~= t);
    assert((t + p).skip(t.len() as int) =~= p);
    assert((t + p).take(t.len() as int) =~= t);
    if p.is_prefix_of(s) {
        assert(s =~= p + s.skip(p.len() as int));
    }
    if s.len() >= p.len() && s.skip(s.len() - p.len()) == p {
        assert(s =~= s.take(s.len() - p.len()) + s.skip(s.len() - p.len()));
    }
}

/// A text without a `c` is one piece, and behind every `c` a new one begins:
/// what was put together comes apart again.
pub proof fn pieces_come_apart<A>(a: Seq<A>, c: A, b: Seq<A>)
    requires
        !b.contains(c),
    ensures
        pieces(b, c) == seq![b],
        pieces(a.push(c) + b, c) == pieces(a, c).push(b),
    decreases b.len(),
{
    let s = a.push(c) + b;
    if b.len() == 0 {
        assert(b =~= Seq::empty());
        assert(s =~= a.push(c));
        assert(s.drop_last() =~= a);
        assert(pieces(s, c) =~= pieces(a, c).push(b));
        assert(pieces(b, c) =~= seq![b]);
    } else {
        let t = b.drop_last();
        assert(b.last() != c) by {
            assert(b.contains(b[b.len() - 1]));
        }
        assert forall|i: int| 0 <= i < t.len() implies t[i] != c by {
            assert(b.contains(b[i]));
        }
        pieces_come_apart(a, c, t);
        assert(s.drop_last() =~= a.push(c) + t);
        assert(b =~= t.push(b.last()));
        assert(pieces(b, c) =~= seq![b]);
        assert(pieces(s, c) =~= pieces(a, c).push(b));
    }
}

/// A small ASCII letter becomes the capital one of the same place in the
/// alphabet; nothing else changes.
pub proof fn capitals_stand_for_small_letters(s: Seq<char>, i: int)
    requires
        0 <= i < s.len(),
    ensures
        upper(s).len() == s.len(),
        'a' <= s[i] <= 'z' ==> 'A' <= upper(s)[i] <= 'Z' && upper(s)[i] as u32 - 'A' as u32
            == s[i] as u32 - 'a' as u32,
        !('a' <= s[i] <= 'z') ==> upper(s)[i] == s[i],
{
}

/// Where a character is replaced none of it is left, and every other stays
/// where it is.
pub proof fn replacing_replaces_every_one(s: Seq<char>, from: char, to: char)
    ensures
        replaced(s, from, to).len() == s.len(),
        from != to ==> !replaced(s, from, to).contains(from),
        forall|i: int|
            0 <= i < s.len() && s[i] != from ==> #[trigger] replaced(s, from, to)[i] == s[i],
        forall|i: int|
            0 <= i < s.len() && s[i] == from ==> #[trigger] replaced(s, from, to)[i] == to,
{
}

/// A number is written without leading zeros, and no two numbers are written
/// alike.
pub proof fn numbers_are_written_plainly(n: nat, m: nat)
    ensures
        all_digits(decimal(n)),
        n > 0 ==> decimal(n)[0] != '0',
        decimal(n) == decimal(m) ==> n == m,
        n < 10 <==> decimal(n).len() == 1,
        decimal(10 * n + m % 10).last() == decimal(m % 10)[0],
        n > 0 ==> decimal(10 * n + m % 10) == decimal(n) + decimal(m % 10),
    decreases n,
{
    lemma_decimal(n);
    lemma_decimal(m);
    let k = 10 * n + m % 10;
    assert(k / 10 == n && k % 10 == m % 10);
    if n > 0 {
        assert(decimal(k) =~= decimal(n) + decimal(m % 10));
    } else {
        assert(k == m % 10);
    }
    if n >= 10 {
        numbers_are_written_plainly(n / 10, m);
        assert(decimal(n)[0] == decimal(n / 10)[0]);
        lemma_decimal(n / 10);
    }
}

/// Digits are read by their places: one more nought is ten times as much, and
/// another digit there adds what it stands for.
pub proof fn digits_count_by_their_places(s: Seq<char>, d: int)
    requires
        0 <= d <= 9,
    ensures
        value_of(s.push('0')) == 10 * value_of(s),
        value_of(s.push(digit(d))) == value_of(s.push('0')) + d,
        value_of(Seq::empty()) == 0,
{
    assert(s.push('0').drop_last() =~= s);
    assert(s.push(digit(d)).drop_last() =~= s);
}

/// A number is read from its digits, with or without a plus sign before them.
/// Anything else, or a number that is too large, is none.
pub proof fn only_digits_are_read(s: Seq<char>, n: nat, max: nat, i: int)
    ensures
        n <= max ==> parsed(decimal(n), max) == Some(n) && parsed(seq!['+'] + decimal(n), max)
            == Some(n),
        n > max ==> parsed(decimal(n), max) is None,
        0 <= i < s.len() && !is_digit(s[i]) && (i > 0 || s[0] != '+') ==> parsed(s, max) is None,
        s.len() == 0 ==> parsed(s, max) is None,
        s.len() == 1 && !is_digit(s[0]) ==> parsed(s, max) is None,
        parsed(s, max) matches Some(v) ==> v <= max,
{
    lemma_decimal(n);
    assert((seq!['+'] + decimal(n)).drop_first() =~= decimal(n));
    assert(is_digit(decimal(n)[0]));
    if 0 < i < s.len() && s[0] == '+' {
        assert(s.drop_first()[i - 1] == s[i]);
    }
}

/// Lists of texts are taken text by text.
pub proof fn views_are_taken_one_by_one(v: Seq<Vec<char>>, i: int)
    ensures
        views(v).len() == v.len(),
        0 <= i < v.len() ==> views(v)[i] == v[i]@,
{
}

/// What is not of the characters to trim stays, wherever it stands.
pub proof fn what_is_not_trimmed_stays(s: Seq<char>, k: Class, i: int)
    requires
        0 <= i < s.len(),
        !k.holds(s[i]),
    ensures
        trim(s, k).contains(s[i]),
{
    let a = trim_start(s, k);
    let b = trim(s, k);
    lemma_trim_start(s, k);
    lemma_trim_end(a, k);
    let off = s.len() - a.len();
    assert(i >= off);
    assert(a[i - off] == s[i]);
    if i - off >= b.len() {
        assert(k.holds(a[i - off]));
    }
    assert(b[i - off] == s[i]);
}

/// A text with a character other than digits, blanks and the plus sign is no
/// number, whatever is around it.
pub proof fn texts_with_other_characters_are_no_numbers(s: Seq<char>, i: int)
    requires
        0 <= i < s.len(),
        !is_digit(s[i]),
        !is_white(s[i]),
        s[i] != '+',
    ensures
        parsed(trim(s, Class::White), u64::MAX as nat) is None,
        parsed(s, u64::MAX as nat) is None,
{
    let t = trim(s, Class::White);
    what_is_not_trimmed_stays(s, Class::White, i);
    let k = choose|k: int| 0 <= k < t.len() && t[k] == s[i];
    only_digits_are_read(t, 0, u64::MAX as nat, k);
    only_digits_are_read(s, 0, u64::MAX as nat, i);
}

} // verus!
