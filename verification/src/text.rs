//! Character-level text helpers shared by the parsers and formatters.
//!
//! Strings are handled as sequences of `char`s; `trim` and its relatives are
//! specified over the same character classes `str` uses.

use vstd::prelude::*;

verus! {

/// The characters of `s`, in order.
pub fn chars_of(s: &str) -> (out: Vec<char>)
    ensures
        out@ == s@,
{
    let mut out: Vec<char> = Vec::new();
    for c in it: s.chars()
        invariant
            out@ == it.seq().take(it.index() as int),
            it.seq() == s@,
    {
        out.push(c);
    }
    out
}

/// Appends one character to a string.
///
/// Trusted: `String::push` appends `c` at the end of the string.
#[verifier::external_body]
pub(crate) fn push_char(s: &mut String, c: char)
    ensures
        final(s)@ == old(s)@.push(c),
{
    s.push(c);
}

/// The string made of the characters `v[lo..hi]`.
pub fn string_of_range(v: &Vec<char>, lo: usize, hi: usize) -> (out: String)
    requires
        lo <= hi <= v@.len(),
    ensures
        out@ == v@.subrange(lo as int, hi as int),
{
    let mut out = String::new();
    let mut i = lo;
    while i < hi
        invariant
            lo <= i <= hi <= v@.len(),
            out@ == v@.subrange(lo as int, i as int),
        decreases hi - i,
    {
        push_char(&mut out, v[i]);
        assert(v@.subrange(lo as int, i + 1) == v@.subrange(lo as int, i as int).push(v@[i as int]));
        i = i + 1;
    }
    out
}

/// The string made of all characters of `v`.
pub fn string_of(v: &Vec<char>) -> (out: String)
    ensures
        out@ == v@,
{
    let out = string_of_range(v, 0, v.len());
    assert(v@.subrange(0, v@.len() as int) == v@);
    out
}

/// Appends the characters `v` to `s`.
pub fn push_chars(s: &mut String, v: &Vec<char>)
    ensures
        final(s)@ == old(s)@ + v@,
{
    let mut i: usize = 0;
    while i < v.len()
        invariant
            i <= v@.len(),
            s@ == old(s)@ + v@.subrange(0, i as int),
        decreases v.len() - i,
    {
        push_char(s, v[i]);
        assert(v@.subrange(0, i + 1) == v@.subrange(0, i as int).push(v@[i as int]));
        i = i + 1;
    }
    assert(v@.subrange(0, v@.len() as int) == v@);
}

/// Character classes that the trimming functions remove.
#[derive(Clone, Copy, PartialEq, Eq, Debug)]
pub enum CharClass {
    /// Unicode `White_Space`, the class `str::trim` removes.
    Space,
    /// `-`
    Dash,
    /// `"` and `'`
    Quote,
    /// `/`
    Slash,
}

/// Unicode `White_Space` (the property behind `char::is_whitespace`).
pub open spec fn is_space(c: char) -> bool {
    let u = c as u32;
    ||| 0x09 <= u <= 0x0d
    ||| u == 0x20
    ||| u == 0x85
    ||| u == 0xa0
    ||| u == 0x1680
    ||| 0x2000 <= u <= 0x200a
    ||| u == 0x2028
    ||| u == 0x2029
    ||| u == 0x202f
    ||| u == 0x205f
    ||| u == 0x3000
}

pub open spec fn in_class(k: CharClass, c: char) -> bool {
    match k {
        CharClass::Space => is_space(c),
        CharClass::Dash => c == '-',
        CharClass::Quote => c == '"' || c == '\'',
        CharClass::Slash => c == '/',
    }
}

pub fn class_has(k: CharClass, c: char) -> (r: bool)
    ensures
        r == in_class(k, c),
{
    match k {
        CharClass::Space => {
            let u = c as u32;
            (0x09 <= u && u <= 0x0d) || u == 0x20 || u == 0x85 || u == 0xa0 || u == 0x1680 || (
            0x2000 <= u && u <= 0x200a) || u == 0x2028 || u == 0x2029 || u == 0x202f || u
                == 0x205f || u == 0x3000
        },
        CharClass::Dash => c == '-',
        CharClass::Quote => c == '"' || c == '\'',
        CharClass::Slash => c == '/',
    }
}

/// `s` without its leading characters of class `k`.
pub open spec fn trim_start_by(s: Seq<char>, k: CharClass) -> Seq<char>
    decreases s.len(),
{
    if s.len() > 0 && in_class(k, s[0]) {
        trim_start_by(s.drop_first(), k)
    } else {
        s
    }
}

/// `s` without its trailing characters of class `k`.
pub open spec fn trim_end_by(s: Seq<char>, k: CharClass) -> Seq<char>
    decreases s.len(),
{
    if s.len() > 0 && in_class(k, s.last()) {
        trim_end_by(s.drop_last(), k)
    } else {
        s
    }
}

/// `s` without its leading and trailing characters of class `k`.
pub open spec fn trim_by(s: Seq<char>, k: CharClass) -> Seq<char> {
    trim_end_by(trim_start_by(s, k), k)
}

/// What `str::trim` gives back.
pub open spec fn trim(s: Seq<char>) -> Seq<char> {
    trim_by(s, CharClass::Space)
}

proof fn lemma_trim_start_at(s: Seq<char>, k: CharClass, i: int)
    requires
        0 <= i <= s.len(),
        forall|j: int| 0 <= j < i ==> in_class(k, #[trigger] s[j]),
    ensures
        trim_start_by(s, k) == trim_start_by(s.subrange(i, s.len() as int), k),
    decreases i,
{
    if i > 0 {
        let t = s.drop_first();
        assert forall|j: int| 0 <= j < i - 1 implies in_class(k, #[trigger] t[j]) by {
            assert(t[j] == s[j + 1]);
        }
        lemma_trim_start_at(t, k, i - 1);
        assert(t.subrange(i - 1, t.len() as int) == s.subrange(i, s.len() as int));
    } else {
        assert(s.subrange(0, s.len() as int) == s);
    }
}

pub proof fn lemma_trim_end_at(s: Seq<char>, k: CharClass, i: int)
    requires
        0 <= i <= s.len(),
        forall|j: int| i <= j < s.len() ==> in_class(k, #[trigger] s[j]),
    ensures
        trim_end_by(s, k) == trim_end_by(s.subrange(0, i), k),
    decreases s.len() - i,
{
    if i < s.len() {
        let t = s.drop_last();
        assert forall|j: int| i <= j < t.len() implies in_class(k, #[trigger] t[j]) by {
            assert(t[j] == s[j]);
        }
        lemma_trim_end_at(t, k, i);
        assert(t.subrange(0, i) == s.subrange(0, i));
    } else {
        assert(s.subrange(0, i) == s);
    }
}

proof fn lemma_trim_start_shape(s: Seq<char>, k: CharClass) -> (lo: int)
    ensures
        0 <= lo <= s.len(),
        trim_start_by(s, k) == s.subrange(lo, s.len() as int),
        lo < s.len() ==> !in_class(k, s[lo]),
    decreases s.len(),
{
    if s.len() > 0 && in_class(k, s[0]) {
        let l = lemma_trim_start_shape(s.drop_first(), k);
        assert(s.drop_first().subrange(l, s.len() - 1) == s.subrange(l + 1, s.len() as int));
        if l < s.len() - 1 {
            assert(s.drop_first()[l] == s[l + 1]);
        }
        l + 1
    } else {
        assert(s.subrange(0, s.len() as int) == s);
        0
    }
}

proof fn lemma_trim_end_shape(s: Seq<char>, k: CharClass) -> (hi: int)
    ensures
        0 <= hi <= s.len(),
        trim_end_by(s, k) == s.subrange(0, hi),
        hi > 0 ==> !in_class(k, s[hi - 1]),
    decreases s.len(),
{
    if s.len() > 0 && in_class(k, s.last()) {
        let h = lemma_trim_end_shape(s.drop_last(), k);
        assert(s.drop_last().subrange(0, h) == s.subrange(0, h));
        if h > 0 {
            assert(s.drop_last()[h - 1] == s[h - 1]);
        }
        h
    } else {
        assert(s.subrange(0, s.len() as int) == s);
        s.len() as int
    }
}

/// Trimming keeps a stretch of the text whose ends are outside the class.
pub proof fn lemma_trim_by_shape(s: Seq<char>, k: CharClass) -> (r: (int, int))
    ensures
        0 <= r.0 <= r.1 <= s.len(),
        trim_by(s, k) == s.subrange(r.0, r.1),
        trim_by(s, k).len() > 0 ==> !in_class(k, trim_by(s, k)[0]) && !in_class(k, trim_by(s, k).last()),
{
    let lo = lemma_trim_start_shape(s, k);
    let t = s.subrange(lo, s.len() as int);
    let hi = lemma_trim_end_shape(t, k);
    assert(t.subrange(0, hi) == s.subrange(lo, lo + hi));
    if hi > 0 {
        assert(t[0] == s[lo]);
        assert(t.subrange(0, hi)[0] == t[0]);
        assert(t.subrange(0, hi).last() == t[hi - 1]);
    }
    (lo, lo + hi)
}

proof fn lemma_trim_end_keeps_first(u: Seq<char>, k: CharClass)
    requires
        u.len() > 0,
        !in_class(k, u[0]),
    ensures
        trim_end_by(u, k).len() > 0,
        trim_end_by(u, k)[0] == u[0],
    decreases u.len(),
{
    if in_class(k, u.last()) {
        assert(u.len() > 1);
        assert(u.drop_last()[0] == u[0]);
        lemma_trim_end_keeps_first(u.drop_last(), k);
    }
}

/// Trimming text whose first non-blank character sits at `i` leaves that
/// character first.
pub proof fn lemma_trim_first_char(s: Seq<char>, i: int)
    requires
        0 <= i < s.len(),
        forall|j: int| 0 <= j < i ==> is_space(#[trigger] s[j]),
        !is_space(s[i]),
    ensures
        trim(s).len() > 0,
        trim(s)[0] == s[i],
{
    lemma_trim_start_at(s, CharClass::Space, i);
    let u = s.subrange(i, s.len() as int);
    assert(u[0] == s[i]);
    assert(trim_start_by(u, CharClass::Space) == u);
    lemma_trim_end_keeps_first(u, CharClass::Space);
}

/// Text whose ends are outside the class is its own trim.
pub proof fn lemma_trim_by_fixed(t: Seq<char>, k: CharClass)
    requires
        t.len() > 0 ==> !in_class(k, t[0]) && !in_class(k, t.last()),
    ensures
        trim_by(t, k) == t,
{
}

/// Bounds `(lo, hi)` such that `v[lo..hi]` is `v` trimmed of class `k`.
pub fn trim_bounds(v: &Vec<char>, k: CharClass) -> (r: (usize, usize))
    ensures
        r.0 <= r.1 <= v@.len(),
        v@.subrange(r.0 as int, r.1 as int) == trim_by(v@, k),
{
    let mut lo: usize = 0;
    while lo < v.len() && class_has(k, v[lo])
        invariant
            lo <= v@.len(),
            forall|j: int| 0 <= j < lo ==> in_class(k, #[trigger] v@[j]),
        decreases v.len() - lo,
    {
        lo = lo + 1;
    }
    proof {
        lemma_trim_start_at(v@, k, lo as int);
    }
    let ghost t = v@.subrange(lo as int, v@.len() as int);
    assert(trim_start_by(t, k) == t);
    let mut hi: usize = v.len();
    while hi > lo && class_has(k, v[hi - 1])
        invariant
            lo <= hi <= v@.len(),
            forall|j: int| hi <= j < v@.len() ==> in_class(k, #[trigger] v@[j]),
        decreases hi,
    {
        hi = hi - 1;
    }
    proof {
        let tl = t.len() as int;
        assert forall|j: int| hi - lo <= j < tl implies in_class(k, #[trigger] t[j]) by {
            assert(t[j] == v@[j + lo]);
        }
        lemma_trim_end_at(t, k, hi - lo);
        let u = t.subrange(0, hi - lo);
        assert(u == v@.subrange(lo as int, hi as int));
        if u.len() > 0 {
            assert(u.last() == v@[hi - 1]);
        }
        assert(trim_end_by(u, k) == u);
    }
    (lo, hi)
}

/// `v` trimmed of class `k`.
pub fn trimmed(v: &Vec<char>, k: CharClass) -> (out: Vec<char>)
    ensures
        out@ == trim_by(v@, k),
{
    let (lo, hi) = trim_bounds(v, k);
    slice_vec(v, lo, hi)
}

/// A copy of `v[lo..hi]`.
pub fn slice_vec(v: &Vec<char>, lo: usize, hi: usize) -> (out: Vec<char>)
    requires
        lo <= hi <= v@.len(),
    ensures
        out@ == v@.subrange(lo as int, hi as int),
{
    let mut out: Vec<char> = Vec::new();
    let mut i = lo;
    while i < hi
        invariant
            lo <= i <= hi <= v@.len(),
            out@ == v@.subrange(lo as int, i as int),
        decreases hi - i,
    {
        out.push(v[i]);
        assert(v@.subrange(lo as int, i + 1) == v@.subrange(lo as int, i as int).push(v@[i as int]));
        i = i + 1;
    }
    out
}

/// Whether `v[at..]` begins with `p`.
pub open spec fn has_at(v: Seq<char>, at: int, p: Seq<char>) -> bool {
    0 <= at && at + p.len() <= v.len() && v.subrange(at, at + p.len()) == p
}

pub fn matches_at(v: &Vec<char>, at: usize, p: &Vec<char>) -> (r: bool)
    ensures
        r == has_at(v@, at as int, p@),
{
    if at > v.len() || p.len() > v.len() - at {
        return false;
    }
    let mut i: usize = 0;
    while i < p.len()
        invariant
            at + p@.len() <= v.len(),
            i <= p@.len(),
            forall|j: int| 0 <= j < i ==> v@[at + j] == p@[j],
        decreases p.len() - i,
    {
        if v[at + i] != p[i] {
            assert(v@.subrange(at as int, at + p@.len())[i as int] != p@[i as int]);
            return false;
        }
        i = i + 1;
    }
    assert(v@.subrange(at as int, at + p@.len()) == p@);
    true
}

/// Whether the two character sequences are equal.
pub fn chars_eq(a: &Vec<char>, b: &Vec<char>) -> (r: bool)
    ensures
        r == (a@ == b@),
{
    if a.len() != b.len() {
        return false;
    }
    let r = matches_at(a, 0, b);
    proof {
        if r {
            assert(a@.subrange(0, b@.len() as int) == a@);
        } else {
            assert(a@.subrange(0, b@.len() as int) == a@);
        }
    }
    r
}

/// The decimal digit for `d` (0..9).
pub open spec fn digit_char(d: nat) -> char {
    if d == 0 { '0' } else if d == 1 { '1' } else if d == 2 { '2' } else if d == 3 { '3' } else if d == 4 { '4' }
    else if d == 5 { '5' } else if d == 6 { '6' } else if d == 7 { '7' } else if d == 8 { '8' } else { '9' }
}

/// The decimal digits of `n`, most significant first, without padding.
pub open spec fn decimal(n: nat) -> Seq<char>
    decreases n,
{
    if n < 10 {
        seq![digit_char(n)]
    } else {
        decimal(n / 10).push(digit_char(n % 10))
    }
}

/// `n` in decimal, left-padded with `0` to at least `width` digits.
pub open spec fn decimal_padded(n: nat, width: nat) -> Seq<char> {
    let d = decimal(n);
    if d.len() < width {
        Seq::new((width - d.len()) as nat, |i: int| '0') + d
    } else {
        d
    }
}

fn digit_of(d: u64) -> (c: char)
    requires
        d < 10,
    ensures
        c == digit_char(d as nat),
{
    if d == 0 { '0' } else if d == 1 { '1' } else if d == 2 { '2' } else if d == 3 { '3' } else if d == 4 { '4' }
    else if d == 5 { '5' } else if d == 6 { '6' } else if d == 7 { '7' } else if d == 8 { '8' } else { '9' }
}

/// The decimal digits of `n`.
pub fn decimal_chars(n: u64) -> (out: Vec<char>)
    ensures
        out@ == decimal(n as nat),
    decreases n,
{
    if n < 10 {
        let c = digit_of(n);
        vec![c]
    } else {
        let mut out = decimal_chars(n / 10);
        let c = digit_of(n % 10);
        out.push(c);
        out
    }
}

/// Appends `n` in decimal, padded with `0` to at least `width` digits.
pub fn push_decimal(s: &mut String, n: u64, width: usize)
    ensures
        final(s)@ == old(s)@ + decimal_padded(n as nat, width as nat),
{
    let d = decimal_chars(n);
    let mut pad: Vec<char> = Vec::new();
    if d.len() < width {
        let k = width - d.len();
        let mut i: usize = 0;
        while i < k
            invariant
                i <= k,
                pad@ == Seq::new(i as nat, |j: int| '0'),
            decreases k - i,
        {
            pad.push('0');
            assert(pad@ =~= Seq::new((i + 1) as nat, |j: int| '0'));
            i = i + 1;
        }
    }
    push_chars(s, &pad);
    push_chars(s, &d);
    assert(old(s)@ + pad@ + d@ == old(s)@ + (pad@ + d@));
    if d.len() >= width {
        assert(pad@ + d@ == d@);
    }
}

pub open spec fn is_ascii_digit(c: char) -> bool {
    '0' <= c && c <= '9'
}

pub open spec fn is_ascii_upper(c: char) -> bool {
    'A' <= c && c <= 'Z'
}

pub open spec fn is_ascii_lower(c: char) -> bool {
    'a' <= c && c <= 'z'
}

/// `char::is_ascii_alphanumeric`.
pub open spec fn is_ascii_alnum(c: char) -> bool {
    is_ascii_digit(c) || is_ascii_upper(c) || is_ascii_lower(c)
}

/// `char::to_ascii_lowercase`.
pub open spec fn ascii_lower(c: char) -> char {
    if is_ascii_upper(c) {
        ((c as u32) + 32) as char
    } else {
        c
    }
}

pub fn char_is_ascii_alnum(c: char) -> (r: bool)
    ensures
        r == is_ascii_alnum(c),
{
    ('0' <= c && c <= '9') || ('A' <= c && c <= 'Z') || ('a' <= c && c <= 'z')
}

pub fn char_ascii_lower(c: char) -> (r: char)
    ensures
        r == ascii_lower(c),
        is_ascii_upper(c) ==> is_ascii_lower(r),
{
    if 'A' <= c && c <= 'Z' {
        assert((c as u8) as int == (c as u32) as int);
        let b = (c as u8) + 32;
        b as char
    } else {
        c
    }
}

/// The first position at or after `i` where `p` occurs in `s`.
pub open spec fn find_from(s: Seq<char>, p: Seq<char>, i: int) -> Option<int>
    decreases s.len() + 1 - i,
{
    if i < 0 || i + p.len() > s.len() {
        None
    } else if has_at(s, i, p) {
        Some(i)
    } else {
        find_from(s, p, i + 1)
    }
}

pub proof fn lemma_find_from_bounds(s: Seq<char>, p: Seq<char>, i: int)
    requires
        0 <= i,
    ensures
        find_from(s, p, i) matches Some(j) ==> i <= j && has_at(s, j, p) && forall|k: int| i <= k < j ==> !has_at(s, k, p),
        find_from(s, p, i) is None ==> forall|k: int| i <= k ==> !has_at(s, k, p),
    decreases s.len() + 1 - i,
{
    if i + p.len() > s.len() {
    } else if has_at(s, i, p) {
    } else {
        lemma_find_from_bounds(s, p, i + 1);
    }
}

/// The first occurrence at or after `i` is found there.
pub proof fn lemma_find_from_first(s: Seq<char>, p: Seq<char>, i: int, j: int)
    requires
        0 <= i <= j,
        has_at(s, j, p),
        forall|k: int| i <= k < j ==> !has_at(s, k, p),
    ensures
        find_from(s, p, i) == Some(j),
    decreases j - i,
{
    if i < j {
        assert(!has_at(s, i, p));
        lemma_find_from_first(s, p, i + 1, j);
    }
}

/// Where `c` does not occur, a search for it finds nothing.
pub proof fn lemma_find_char_none(s: Seq<char>, c: char, i: int)
    requires
        0 <= i,
        !s.contains(c),
    ensures
        find_from(s, seq![c], i) is None,
{
    lemma_find_from_bounds(s, seq![c], i);
    if find_from(s, seq![c], i) is Some {
        let j = find_from(s, seq![c], i)->0;
        assert(s.subrange(j, j + 1)[0] == s[j]);
        assert(s[j] == c);
    }
}

/// First position at or after `from` where `p` occurs in `v`.
pub fn find_chars(v: &Vec<char>, p: &Vec<char>, from: usize) -> (r: Option<usize>)
    requires
        from <= v@.len(),
    ensures
        r matches Some(j) ==> find_from(v@, p@, from as int) == Some(j as int),
        r is None ==> find_from(v@, p@, from as int) is None,
{
    let mut i = from;
    loop
        invariant
            from <= i <= v@.len(),
            find_from(v@, p@, from as int) == find_from(v@, p@, i as int),
        decreases v.len() - i,
    {
        if p.len() > v.len() - i {
            return None;
        }
        if matches_at(v, i, p) {
            return Some(i);
        }
        if i == v.len() {
            assert(p@.len() == 0);
            assert(has_at(v@, i as int, p@)) by {
                assert(v@.subrange(i as int, i as int) =~= p@);
            }
            return None;
        }
        i = i + 1;
    }
}

/// Whether `s` is one of `names`.
pub fn contains_str(names: &Vec<String>, s: &str) -> (r: bool)
    ensures
        r == names@.map_values(|x: String| x@).contains(s@),
{
    let ghost v = names@.map_values(|x: String| x@);
    let mut i: usize = 0;
    while i < names.len()
        invariant
            v == names@.map_values(|x: String| x@),
            i <= names@.len(),
            forall|j: int| 0 <= j < i ==> v[j] != s@,
        decreases names.len() - i,
    {
        if crate::paths::str_eq(names[i].as_str(), s) {
            assert(v[i as int] == s@);
            return true;
        }
        i = i + 1;
    }
    false
}

/// `v` without its trailing characters of class `k`.
pub fn trimmed_end(v: &Vec<char>, k: CharClass) -> (out: Vec<char>)
    ensures
        out@ == trim_end_by(v@, k),
{
    let mut hi: usize = v.len();
    while hi > 0 && class_has(k, v[hi - 1])
        invariant
            hi <= v@.len(),
            forall|j: int| hi <= j < v@.len() ==> in_class(k, #[trigger] v@[j]),
        decreases hi,
    {
        hi = hi - 1;
    }
    proof {
        lemma_trim_end_at(v@, k, hi as int);
        let u = v@.subrange(0, hi as int);
        if u.len() > 0 {
            assert(u.last() == v@[hi - 1]);
        }
        assert(trim_end_by(u, k) == u);
    }
    slice_vec(v, 0, hi)
}

/// The UTF-8 encoding of `s`.
pub open spec fn utf8_bytes(s: Seq<char>) -> Seq<u8> {
    vstd::utf8::encode_utf8(s)
}

} // verus!
