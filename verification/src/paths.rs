//! Path building under the rules of Unix and of Windows (`/` and `\`
//! separators, drive prefixes), and the check that keeps a skill id from
//! escaping the directory it is joined onto. UNC and verbatim (`\\?\`)
//! prefixes are not read as prefixes.

use vstd::prelude::*;
use crate::text::{CharClass, chars_of, chars_eq, push_chars, trim, trimmed, slice_vec, string_of, has_at};

verus! {

/// Whether two strings hold the same characters.
pub fn str_eq(a: &str, b: &str) -> (r: bool)
    ensures
        r == (a@ == b@),
{
    let va = chars_of(a);
    let vb = chars_of(b);
    chars_eq(&va, &vb)
}

/// Which platform's rules a path follows.
#[derive(Debug, Clone, Copy, PartialEq, Eq, Structural)]
pub enum PathStyle {
    /// `/` separates components.
    Unix,
    /// `/` and `\` separate components, and `X:` at the start is a drive.
    Windows,
}

/// `c` separates path components.
pub open spec fn is_sep(st: PathStyle, c: char) -> bool {
    c == '/' || (st == PathStyle::Windows && c == '\\')
}

/// The separator a join puts between components.
pub open spec fn main_sep(st: PathStyle) -> char {
    match st {
        PathStyle::Unix => '/',
        PathStyle::Windows => '\\',
    }
}

pub open spec fn is_ascii_alpha(c: char) -> bool {
    ('a' <= c && c <= 'z') || ('A' <= c && c <= 'Z')
}

/// Length of a drive prefix (`X:`) at the start of `p`: 2 on Windows when
/// there is one, else 0.
pub open spec fn drive_len(st: PathStyle, p: Seq<char>) -> int {
    if st == PathStyle::Windows && p.len() >= 2 && p[1] == ':' && is_ascii_alpha(p[0]) {
        2
    } else {
        0
    }
}

/// `base` joined with `comp` the way `PathBuf::push` joins under the
/// rules of `st`: a `comp` with a drive replaces `base`; a `comp` that
/// starts with a separator replaces all of `base` but its drive; otherwise
/// the main separator goes between them unless `base` is empty, already
/// ends with a separator, or is a bare drive.
pub open spec fn path_join(st: PathStyle, base: Seq<char>, comp: Seq<char>) -> Seq<char> {
    if drive_len(st, comp) == 2 {
        comp
    } else if comp.len() > 0 && is_sep(st, comp[0]) {
        base.take(drive_len(st, base)) + comp
    } else if base.len() == 0 || is_sep(st, base.last()) || (drive_len(st, base) == 2 && base.len() == 2) {
        base + comp
    } else {
        base + seq![main_sep(st)] + comp
    }
}

/// Where the components of `p` start: after the drive, and after a root
/// separator or a leading `.` component, which are never file names.
pub open spec fn body_start(st: PathStyle, p: Seq<char>) -> int {
    let pre = drive_len(st, p);
    if pre < p.len() && is_sep(st, p[pre]) {
        pre + 1
    } else if pre < p.len() && p[pre] == '.' && (pre + 1 == p.len() || is_sep(st, p[pre + 1])) {
        pre + 1
    } else {
        pre
    }
}

/// Start of the component of `p` that ends at `end` (never below `lo`).
pub open spec fn seg_start(st: PathStyle, p: Seq<char>, lo: int, end: int) -> int
    decreases end - lo,
{
    if end <= lo || is_sep(st, p[end - 1]) {
        end
    } else {
        seg_start(st, p, lo, end - 1)
    }
}

/// `end` moved back over trailing separators and `.` components (never
/// below `lo`).
pub open spec fn trim_back(st: PathStyle, p: Seq<char>, lo: int, end: int) -> int
    decreases end - lo,
{
    if end <= lo {
        end
    } else if is_sep(st, p[end - 1]) {
        trim_back(st, p, lo, end - 1)
    } else {
        let s = seg_start(st, p, lo, end);
        if end - s == 1 && p[s] == '.' {
            trim_back(st, p, lo, s)
        } else {
            end
        }
    }
}

/// The file name of a path (what `Path::file_name` gives): its last
/// component, unless that is `..` or there is none.
pub open spec fn path_file_name(st: PathStyle, p: Seq<char>) -> Option<Seq<char>> {
    let bs = body_start(st, p);
    let e = trim_back(st, p, bs, p.len() as int);
    if e <= bs {
        None
    } else {
        let c = p.subrange(seg_start(st, p, bs, e), e);
        if c == seq!['.', '.'] {
            None
        } else {
            Some(c)
        }
    }
}

/// `p` with its file name replaced by the separator-free `name` (what
/// `Path::with_file_name` gives): the last component and the separators
/// before it are dropped when there is a file name, then `name` is joined
/// on.
pub open spec fn path_with_file_name(st: PathStyle, p: Seq<char>, name: Seq<char>) -> Seq<char> {
    let bs = body_start(st, p);
    let e = trim_back(st, p, bs, p.len() as int);
    let base = if path_file_name(st, p) is Some {
        p.subrange(0, trim_back(st, p, bs, seg_start(st, p, bs, e)))
    } else {
        p
    };
    path_join(st, base, name)
}

proof fn lemma_seg_start_bounds(st: PathStyle, p: Seq<char>, lo: int, end: int)
    requires
        0 <= lo <= end <= p.len(),
    ensures
        lo <= seg_start(st, p, lo, end) <= end,
        forall|j: int| seg_start(st, p, lo, end) <= j < end ==> !is_sep(st, #[trigger] p[j]),
    decreases end - lo,
{
    if end > lo && !is_sep(st, p[end - 1]) {
        lemma_seg_start_bounds(st, p, lo, end - 1);
    }
}

proof fn lemma_trim_back_bounds(st: PathStyle, p: Seq<char>, lo: int, end: int)
    requires
        0 <= lo <= end <= p.len(),
    ensures
        lo <= trim_back(st, p, lo, end) <= end,
    decreases end - lo,
{
    if end > lo {
        if is_sep(st, p[end - 1]) {
            lemma_trim_back_bounds(st, p, lo, end - 1);
        } else {
            lemma_seg_start_bounds(st, p, lo, end);
            let s = seg_start(st, p, lo, end);
            if end - s == 1 && p[s] == '.' {
                lemma_trim_back_bounds(st, p, lo, s);
            }
        }
    }
}

fn sep_in(st: PathStyle, c: char) -> (r: bool)
    ensures
        r == is_sep(st, c),
{
    c == '/' || (st == PathStyle::Windows && c == '\\')
}

fn drive_len_of(st: PathStyle, p: &Vec<char>) -> (r: usize)
    ensures
        r == drive_len(st, p@),
{
    if st == PathStyle::Windows && p.len() >= 2 && p[1] == ':' && (('a' <= p[0] && p[0] <= 'z') || ('A' <= p[0]
        && p[0] <= 'Z')) {
        2
    } else {
        0
    }
}

fn body_start_of(st: PathStyle, p: &Vec<char>) -> (r: usize)
    ensures
        r == body_start(st, p@),
        r <= p@.len(),
{
    let pre = drive_len_of(st, p);
    if pre < p.len() && sep_in(st, p[pre]) {
        pre + 1
    } else if pre < p.len() && p[pre] == '.' && (pre + 1 == p.len() || sep_in(st, p[pre + 1])) {
        pre + 1
    } else {
        pre
    }
}

fn seg_start_of(st: PathStyle, p: &Vec<char>, lo: usize, end: usize) -> (r: usize)
    requires
        lo <= end <= p@.len(),
    ensures
        r == seg_start(st, p@, lo as int, end as int),
{
    let mut k = end;
    while k > lo && !sep_in(st, p[k - 1])
        invariant
            lo <= k <= end,
            end <= p@.len(),
            seg_start(st, p@, lo as int, k as int) == seg_start(st, p@, lo as int, end as int),
        decreases k,
    {
        k = k - 1;
    }
    k
}

fn trim_back_of(st: PathStyle, p: &Vec<char>, lo: usize, end: usize) -> (r: usize)
    requires
        lo <= end <= p@.len(),
    ensures
        r == trim_back(st, p@, lo as int, end as int),
{
    let mut k = end;
    loop
        invariant
            lo <= k <= end,
            end <= p@.len(),
            trim_back(st, p@, lo as int, k as int) == trim_back(st, p@, lo as int, end as int),
        decreases k,
    {
        if k <= lo {
            return k;
        }
        if sep_in(st, p[k - 1]) {
            k = k - 1;
        } else {
            let s = seg_start_of(st, p, lo, k);
            proof {
                lemma_seg_start_bounds(st, p@, lo as int, k as int);
            }
            if k - s == 1 && p[s] == '.' {
                k = s;
            } else {
                return k;
            }
        }
    }
}

/// The file name of `path` under the rules of `st` (see [`path_file_name`]).
pub fn file_name_in(path: &str, st: PathStyle) -> (r: Option<String>)
    ensures
        crate::search::opt_view(r) == path_file_name(st, path@),
{
    let p = chars_of(path);
    let bs = body_start_of(st, &p);
    let e = trim_back_of(st, &p, bs, p.len());
    proof {
        lemma_trim_back_bounds(st, p@, bs as int, p@.len() as int);
    }
    if e <= bs {
        return None;
    }
    let s = seg_start_of(st, &p, bs, e);
    proof {
        lemma_seg_start_bounds(st, p@, bs as int, e as int);
    }
    let c = slice_vec(&p, s, e);
    if c.len() == 2 && c[0] == '.' && c[1] == '.' {
        assert(c@ =~= seq!['.', '.']);
        None
    } else {
        assert(c@ != seq!['.', '.']) by {
            if c@ == seq!['.', '.'] {
                assert(c@.len() == 2 && c@[0] == '.' && c@[1] == '.');
            }
        }
        Some(string_of(&c))
    }
}

/// `path` with its file name replaced by the separator-free `name`, under
/// the rules of `st` (see [`path_with_file_name`]).
pub fn with_file_name_in(path: &str, name: &str, st: PathStyle) -> (r: String)
    ensures
        r@ == path_with_file_name(st, path@, name@),
{
    let p = chars_of(path);
    let bs = body_start_of(st, &p);
    let e = trim_back_of(st, &p, bs, p.len());
    proof {
        lemma_trim_back_bounds(st, p@, bs as int, p@.len() as int);
    }
    let has_name = file_name_in(path, st).is_some();
    let base: Vec<char> = if has_name {
        let s = seg_start_of(st, &p, bs, e);
        proof {
            lemma_seg_start_bounds(st, p@, bs as int, e as int);
            lemma_trim_back_bounds(st, p@, bs as int, s as int);
        }
        let b = trim_back_of(st, &p, bs, s);
        slice_vec(&p, 0, b)
    } else {
        p
    };
    let b = string_of(&base);
    join_path_in(b.as_str(), name, st)
}

/// `base` joined with `comp` under the rules of `st` (see [`path_join`]).
pub fn join_path_in(base: &str, comp: &str, st: PathStyle) -> (out: String)
    ensures
        out@ == path_join(st, base@, comp@),
{
    let b = chars_of(base);
    let c = chars_of(comp);
    if drive_len_of(st, &c) == 2 {
        return comp.to_string();
    }
    if c.len() > 0 && sep_in(st, c[0]) {
        let pre = drive_len_of(st, &b);
        let head = slice_vec(&b, 0, pre);
        let mut out = string_of(&head);
        push_chars(&mut out, &c);
        return out;
    }
    let mut out = base.to_string();
    if !(b.len() == 0 || sep_in(st, b[b.len() - 1]) || (drive_len_of(st, &b) == 2 && b.len() == 2)) {
        let sep: Vec<char> = vec![if st == PathStyle::Windows { '\\' } else { '/' }];
        assert(sep@ == seq![main_sep(st)]);
        push_chars(&mut out, &sep);
    }
    push_chars(&mut out, &c);
    out
}

/// `base` joined with `comp` under the path rules of the platform this
/// program runs on (see [`path_join`]).
pub fn join_path(base: &str, comp: &str) -> (out: String)
    ensures
        out@ == path_join(PathStyle::Unix, base@, comp@) || out@ == path_join(PathStyle::Windows, base@, comp@),
{
    join_path_in(base, comp, host_path_style())
}

/// Calls nothing but reads `std::path::MAIN_SEPARATOR`, the separator of
/// the platform the program was built for; nothing is claimed of it.
#[verifier::external_body]
fn main_separator() -> char {
    std::path::MAIN_SEPARATOR
}

/// The path rules of the platform this program runs on: Windows rules
/// where `\` is the main separator, Unix rules otherwise.
pub fn host_path_style() -> (st: PathStyle) {
    if main_separator() == '\\' {
        PathStyle::Windows
    } else {
        PathStyle::Unix
    }
}

/// Why a user-given path could not be expanded.
#[derive(Debug, Clone, Copy, PartialEq, Eq, Structural)]
pub enum PathError {
    /// Nothing but blanks was given.
    Empty,
    /// The path starts with `~` and the home directory is unknown.
    NoHome,
}

impl PathError {
    /// The message a user sees.
    pub fn message(&self) -> (m: String)
        ensures
            m@ == match self {
                PathError::Empty => "storage path is empty"@,
                PathError::NoHome => "home directory is unknown"@,
            },
    {
        match self {
            PathError::Empty => String::from_str("storage path is empty"),
            PathError::NoHome => String::from_str("home directory is unknown"),
        }
    }
}

/// A user-given path, trimmed, with a leading `~` or `~/` read against the
/// home directory `home`, joined under the rules of `st`.
pub open spec fn spec_expand_home(st: PathStyle, raw: Seq<char>, home: Option<Seq<char>>) -> Result<
    Seq<char>,
    PathError,
> {
    let t = trim(raw);
    if t.len() == 0 {
        Err(PathError::Empty)
    } else if t == seq!['~'] || has_at(t, 0, seq!['~', '/']) {
        match home {
            None => Err(PathError::NoHome),
            Some(h) => if t == seq!['~'] {
                Ok(h)
            } else {
                Ok(path_join(st, h, t.subrange(2, t.len() as int)))
            },
        }
    } else {
        Ok(t)
    }
}

pub open spec fn expand_view(r: Result<String, PathError>) -> Result<Seq<char>, PathError> {
    match r {
        Ok(p) => Ok(p@),
        Err(e) => Err(e),
    }
}

/// Expands `raw` against the home directory `home` under the path rules of
/// `st` (see [`spec_expand_home`]).
pub fn expand_home_path_with(raw: &str, home: Option<String>, st: PathStyle) -> (r: Result<String, PathError>)
    ensures
        expand_view(r) == spec_expand_home(st, raw@, crate::search::opt_view(home)),
{
    let v = chars_of(raw);
    let t = trimmed(&v, CharClass::Space);
    if t.len() == 0 {
        return Err(PathError::Empty);
    }
    let tilde = t.len() == 1 && t[0] == '~';
    let prefixed = t.len() >= 2 && t[0] == '~' && t[1] == '/';
    proof {
        if tilde {
            assert(t@ =~= seq!['~']);
        }
        assert(has_at(t@, 0, seq!['~', '/']) == prefixed) by {
            if prefixed {
                assert(t@.subrange(0, 2) =~= seq!['~', '/']);
            }
            if has_at(t@, 0, seq!['~', '/']) {
                assert(t@.subrange(0, 2)[0] == t@[0] && t@.subrange(0, 2)[1] == t@[1]);
            }
        }
        if t@ == seq!['~'] {
            assert(t@.len() == 1 && t@[0] == '~');
        }
    }
    if !tilde && !prefixed {
        return Ok(string_of(&t));
    }
    match home {
        None => Err(PathError::NoHome),
        Some(h) => {
            if tilde {
                Ok(h)
            } else {
                let rest = slice_vec(&t, 2, t.len());
                let r = string_of(&rest);
                Ok(join_path_in(h.as_str(), r.as_str(), st))
            }
        },
    }
}

/// Calls `dirs::home_dir`; the home directory is the machine's, so nothing
/// is claimed of it.
#[verifier::external_body]
fn home_dir() -> Option<String> {
    dirs::home_dir().map(|p| p.to_string_lossy().to_string())
}

/// Expands a user-given path against this machine's home directory: a
/// blank path is refused; `~` and `~/...` need a home directory.
pub fn expand_home_path(raw: &str) -> (r: Result<String, PathError>)
    ensures
        exists|st: PathStyle, home: Option<Seq<char>>| expand_view(r) == #[trigger] spec_expand_home(st, raw@, home),
        trim(raw@).len() == 0 ==> r == Err::<String, PathError>(PathError::Empty),
{
    let home = home_dir();
    let ghost hv = crate::search::opt_view(home);
    let st = host_path_style();
    let r = expand_home_path_with(raw, home, st);
    assert(expand_view(r) == spec_expand_home(st, raw@, hv));
    r
}

/// `h` is the length of the first segment of `s` (up to its first
/// separator under the rules of `st`).
pub open spec fn is_head_len(st: PathStyle, s: Seq<char>, h: int) -> bool {
    &&& 0 <= h <= s.len()
    &&& forall|j: int| 0 <= j < h ==> !is_sep(st, s[j])
    &&& (h == s.len() || is_sep(st, s[h]))
}

/// Every character after the first segment is a separator or a lone `.`
/// segment.
pub open spec fn only_dots_after(st: PathStyle, s: Seq<char>, h: int) -> bool {
    forall|j: int|
        h <= j < s.len() && !is_sep(st, #[trigger] s[j]) ==> s[j] == '.' && is_sep(st, s[j - 1]) && (j + 1
            == s.len() || is_sep(st, s[j + 1]))
}

/// A skill id that `Path::components` reads, under the rules of `st`, as
/// exactly one plain (`Normal`) component, with no NUL byte: non-empty, no
/// drive prefix, not starting with a separator (a root, or on Windows a
/// `\\server` prefix), a first segment other than `.` and `..`, and
/// nothing after it but separators and `.` segments (which `components`
/// drops).
pub open spec fn is_safe_skill_id(st: PathStyle, s: Seq<char>) -> bool {
    &&& !s.contains('\0')
    &&& drive_len(st, s) == 0
    &&& exists|h: int|
        is_head_len(st, s, h) && 0 < h && #[trigger] s.take(h) != seq!['.'] && s.take(h) != seq!['.', '.']
            && only_dots_after(st, s, h)
}

/// Whether `skill` is a single plain directory name under the rules of
/// `st` (see [`is_safe_skill_id`]).
pub fn check_skill_id(skill: &str, st: PathStyle) -> (r: bool)
    ensures
        r == is_safe_skill_id(st, skill@),
{
    let s = chars_of(skill);
    let mut k: usize = 0;
    while k < s.len()
        invariant
            s@ == skill@,
            k <= s@.len(),
            forall|j: int| 0 <= j < k ==> s@[j] != '\0',
        decreases s.len() - k,
    {
        if s[k] == '\0' {
            assert(s@.contains('\0'));
            return false;
        }
        k = k + 1;
    }
    assert(!s@.contains('\0'));
    if drive_len_of(st, &s) != 0 {
        return false;
    }
    let mut h: usize = 0;
    while h < s.len() && !sep_in(st, s[h])
        invariant
            h <= s@.len(),
            forall|j: int| 0 <= j < h ==> !is_sep(st, s@[j]),
        decreases s.len() - h,
    {
        h = h + 1;
    }
    assert(is_head_len(st, s@, h as int));
    proof {
        assert forall|g: int| is_head_len(st, s@, g) implies g == h by {
            if g < h {
                assert(!is_sep(st, s@[g]));
            } else if g > h {
                assert(is_sep(st, s@[h as int]));
            }
        }
    }
    let dot: Vec<char> = vec!['.'];
    let dotdot: Vec<char> = vec!['.', '.'];
    let head = crate::text::slice_vec(&s, 0, h);
    assert(head@ == s@.take(h as int));
    if h == 0 || chars_eq(&head, &dot) || chars_eq(&head, &dotdot) {
        assert(dot@ == seq!['.']);
        assert(dotdot@ == seq!['.', '.']);
        return false;
    }
    assert(dot@ == seq!['.']);
    assert(dotdot@ == seq!['.', '.']);
    let mut j: usize = h;
    while j < s.len()
        invariant
            s@ == skill@,
            !s@.contains('\0'),
            drive_len(st, s@) == 0,
            forall|g: int| is_head_len(st, s@, g) ==> g == h,
            s@.take(h as int) != seq!['.'] && s@.take(h as int) != seq!['.', '.'],
            h <= j <= s@.len(),
            0 < h,
            is_head_len(st, s@, h as int),
            forall|i: int|
                h <= i < j && !is_sep(st, #[trigger] s@[i]) ==> s@[i] == '.' && is_sep(st, s@[i - 1]) && (i
                    + 1 == s@.len() || is_sep(st, s@[i + 1])),
        decreases s.len() - j,
    {
        if !sep_in(st, s[j]) {
            if !(s[j] == '.' && sep_in(st, s[j - 1]) && (j + 1 == s.len() || sep_in(st, s[j + 1]))) {
                assert(!only_dots_after(st, s@, h as int));
                return false;
            }
        }
        j = j + 1;
    }
    assert(only_dots_after(st, s@, h as int));
    assert(s@.take(h as int) != seq!['.'] && s@.take(h as int) != seq!['.', '.']);
    true
}

} // verus!
