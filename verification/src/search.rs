//! Online search: building the request URLs, turning the answers of
//! skills.sh and GitHub into results, and the small TTL cache that keeps
//! skills.sh (an unofficial API) from being asked the same thing twice.

use vstd::prelude::*;
use vstd::string::StringSliceAdditionalSpecFns;
use crate::text::{CharClass, trim, trim_end_by, trimmed_end, chars_of, trimmed, string_of, push_chars, push_decimal, decimal, slice_vec};

verus! {

/// How long a cached skills.sh answer stays fresh.
pub const CACHE_TTL_SECS: u64 = 300;
/// How many answers the cache keeps.
pub const CACHE_CAPACITY: usize = 32;

/// One skills.sh search hit.
#[derive(Debug, Clone, PartialEq, Eq)]
pub struct OnlineSkillResult {
    pub name: String,
    pub installs: u64,
    pub source: String,
    pub source_url: String,
    pub license: Option<String>,
}

/// One item of a skills.sh answer, as parsed.
#[derive(Debug, Clone)]
pub struct SkillsShItem {
    pub name: String,
    pub installs: u64,
    pub source: String,
    pub license: Option<String>,
}

/// A license value that is blank after trimming is no license.
pub open spec fn present_license(l: Option<Seq<char>>) -> Option<Seq<char>> {
    match l {
        Some(v) => if trim(v).len() > 0 { Some(trim(v)) } else { None },
        None => None,
    }
}

pub open spec fn opt_view(o: Option<String>) -> Option<Seq<char>> {
    match o {
        Some(s) => Some(s@),
        None => None,
    }
}

/// `https://github.com/`
pub open spec fn github_prefix() -> Seq<char> {
    "https://github.com/"@
}

/// The trimmed, non-blank value, if any.
fn trimmed_nonblank(l: &Option<String>) -> (r: Option<String>)
    ensures
        opt_view(r) == present_license(opt_view(*l)),
{
    match l {
        Some(v) => {
            let c = chars_of(v.as_str());
            let t = trimmed(&c, CharClass::Space);
            if t.len() > 0 {
                Some(string_of(&t))
            } else {
                None
            }
        },
        None => None,
    }
}

/// The results of a skills.sh answer, in answer order: the source URL is
/// the GitHub page of the source, and a blank license counts as unknown.
pub fn online_results(items: &Vec<SkillsShItem>) -> (out: Vec<OnlineSkillResult>)
    ensures
        out@.len() == items@.len(),
        forall|i: int|
            0 <= i < items@.len() ==> {
                let o = #[trigger] out@[i];
                let it = items@[i];
                &&& o.name == it.name
                &&& o.installs == it.installs
                &&& o.source == it.source
                &&& o.source_url@ == github_prefix() + it.source@
                &&& opt_view(o.license) == present_license(opt_view(it.license))
            },
{
    let mut out: Vec<OnlineSkillResult> = Vec::new();
    let mut i: usize = 0;
    while i < items.len()
        invariant
            i <= items@.len(),
            out@.len() == i,
            forall|j: int|
                0 <= j < i ==> {
                    let o = #[trigger] out@[j];
                    let it = items@[j];
                    &&& o.name == it.name
                    &&& o.installs == it.installs
                    &&& o.source == it.source
                    &&& o.source_url@ == github_prefix() + it.source@
                    &&& opt_view(o.license) == present_license(opt_view(it.license))
                },
        decreases items.len() - i,
    {
        let it = &items[i];
        let mut url = String::from_str("https://github.com/");
        let sc = chars_of(it.source.as_str());
        push_chars(&mut url, &sc);
        out.push(
            OnlineSkillResult {
                name: it.name.clone(),
                installs: it.installs,
                source: it.source.clone(),
                source_url: url,
                license: trimmed_nonblank(&it.license),
            },
        );
        i = i + 1;
    }
    out
}

/// A GitHub repository search hit.
#[derive(Debug, Clone)]
pub struct RepoSummary {
    pub full_name: String,
    pub html_url: String,
    pub description: Option<String>,
    pub stars: u64,
    pub updated_at: String,
    pub clone_url: String,
    /// SPDX id, or `None` when GitHub cannot identify one.
    pub license: Option<String>,
}

/// One item of a GitHub search answer, as parsed.
#[derive(Debug, Clone)]
pub struct RepoItem {
    pub full_name: String,
    pub html_url: String,
    pub description: Option<String>,
    pub stargazers_count: u64,
    pub updated_at: String,
    pub clone_url: String,
    /// The `spdx_id` of the item's `license` object: the outer `None` when
    /// there is no license object, the inner one when it has no id.
    pub license: Option<Option<String>>,
}

/// ASCII case folding of one character.
pub open spec fn fold_ascii(c: char) -> char {
    crate::text::ascii_lower(c)
}

/// `a` and `b` are equal ignoring ASCII case (`str::eq_ignore_ascii_case`).
pub open spec fn eq_ignore_ascii_case(a: Seq<char>, b: Seq<char>) -> bool {
    a.len() == b.len() && forall|i: int| 0 <= i < a.len() ==> fold_ascii(#[trigger] a[i]) == fold_ascii(b[i])
}

/// GitHub's answer for a license file it cannot classify. It is not a
/// license grant, so it is never reported as one.
pub open spec fn spdx_unknown() -> Seq<char> {
    "NOASSERTION"@
}

/// The trimmed SPDX id, unless blank or NOASSERTION (in any ASCII case).
pub open spec fn spec_normalize_spdx(license: Option<Option<Seq<char>>>) -> Option<Seq<char>> {
    match license {
        Some(Some(id)) => if trim(id).len() > 0 && !eq_ignore_ascii_case(trim(id), spdx_unknown()) {
            Some(trim(id))
        } else {
            None
        },
        _ => None,
    }
}

fn chars_eq_ignore_ascii_case(a: &Vec<char>, b: &Vec<char>) -> (r: bool)
    ensures
        r == eq_ignore_ascii_case(a@, b@),
{
    if a.len() != b.len() {
        return false;
    }
    let mut i: usize = 0;
    while i < a.len()
        invariant
            a@.len() == b@.len(),
            i <= a@.len(),
            forall|j: int| 0 <= j < i ==> fold_ascii(#[trigger] a@[j]) == fold_ascii(b@[j]),
        decreases a.len() - i,
    {
        if crate::text::char_ascii_lower(a[i]) != crate::text::char_ascii_lower(b[i]) {
            return false;
        }
        i = i + 1;
    }
    true
}

/// See [`spec_normalize_spdx`].
pub fn normalize_spdx(license: &Option<Option<String>>) -> (r: Option<String>)
    ensures
        opt_view(r) == spec_normalize_spdx(
            match license {
                Some(Some(id)) => Some(Some(id@)),
                Some(None) => Some(None),
                None => None,
            },
        ),
{
    match license {
        Some(Some(id)) => {
            let c = chars_of(id.as_str());
            let t = trimmed(&c, CharClass::Space);
            let unknown = chars_of("NOASSERTION");
            if t.len() > 0 && !chars_eq_ignore_ascii_case(&t, &unknown) {
                Some(string_of(&t))
            } else {
                None
            }
        },
        _ => None,
    }
}

/// The repository summaries of a GitHub search answer, in answer order.
pub fn repo_summaries(items: &Vec<RepoItem>) -> (out: Vec<RepoSummary>)
    ensures
        out@.len() == items@.len(),
        forall|i: int|
            0 <= i < items@.len() ==> {
                let o = #[trigger] out@[i];
                let it = items@[i];
                &&& o.full_name == it.full_name
                &&& o.html_url == it.html_url
                &&& o.description == it.description
                &&& o.stars == it.stargazers_count
                &&& o.updated_at == it.updated_at
                &&& o.clone_url == it.clone_url
                &&& opt_view(o.license) == spec_normalize_spdx(
                    match it.license {
                        Some(Some(id)) => Some(Some(id@)),
                        Some(None) => Some(None),
                        None => None,
                    },
                )
            },
{
    let mut out: Vec<RepoSummary> = Vec::new();
    let mut i: usize = 0;
    while i < items.len()
        invariant
            i <= items@.len(),
            out@.len() == i,
            forall|j: int|
                0 <= j < i ==> {
                    let o = #[trigger] out@[j];
                    let it = items@[j];
                    &&& o.full_name == it.full_name
                    &&& o.html_url == it.html_url
                    &&& o.description == it.description
                    &&& o.stars == it.stargazers_count
                    &&& o.updated_at == it.updated_at
                    &&& o.clone_url == it.clone_url
                    &&& opt_view(o.license) == spec_normalize_spdx(
                        match it.license {
                            Some(Some(id)) => Some(Some(id@)),
                            Some(None) => Some(None),
                            None => None,
                        },
                    )
                },
        decreases items.len() - i,
    {
        let it = &items[i];
        let description = match &it.description {
            Some(d) => Some(d.clone()),
            None => None,
        };
        out.push(
            RepoSummary {
                full_name: it.full_name.clone(),
                html_url: it.html_url.clone(),
                description,
                stars: it.stargazers_count,
                updated_at: it.updated_at.clone(),
                clone_url: it.clone_url.clone(),
                license: normalize_spdx(&it.license),
            },
        );
        i = i + 1;
    }
    out
}

/// A byte `urlencoding` leaves as it is: ASCII letters, digits and `-._~`.
pub open spec fn is_unreserved(b: u8) -> bool {
    (48 <= b <= 57) || (65 <= b <= 90) || (97 <= b <= 122) || b == 45 || b == 46 || b == 95 || b == 126
}

/// Upper-case hexadecimal digit of a nibble.
pub open spec fn hex_upper(d: u8) -> char {
    if d < 10 {
        (('0' as u8) + d) as char
    } else {
        (('A' as u8) + d - 10) as char
    }
}

/// Percent-encoding of `bytes`: unreserved bytes as themselves, every
/// other byte as `%` and two upper-case hex digits.
pub open spec fn url_encoded(bytes: Seq<u8>) -> Seq<char>
    decreases bytes.len(),
{
    if bytes.len() == 0 {
        Seq::empty()
    } else {
        let b = bytes.last();
        url_encoded(bytes.drop_last()) + if is_unreserved(b) {
            seq![b as char]
        } else {
            seq!['%', hex_upper(b >> 4), hex_upper(b & 15)]
        }
    }
}

/// `s` percent-encoded for a URL query.
///
/// Trusted: `urlencoding::encode` writes the UTF-8 bytes of `s`, keeping
/// ASCII alphanumerics and `-`, `.`, `_`, `~` and writing every other byte
/// as `%XX` with upper-case hex digits.
#[verifier::external_body]
fn url_encode(s: &str) -> (r: String)
    ensures
        r@ == url_encoded(s.spec_bytes()),
{
    urlencoding::encode(s).into_owned()
}

/// `limit` clamped to 1..=50.
pub open spec fn clamp_limit(limit: usize) -> nat {
    if limit < 1 { 1 } else if limit > 50 { 50 } else { limit as nat }
}

/// `base` without trailing `/`, then `path_query`, the encoded query,
/// `&<limit_key>=` and the clamped limit.
pub open spec fn search_url(base: Seq<char>, path_query: Seq<char>, query: Seq<char>, limit_key: Seq<char>, limit: usize) -> Seq<char> {
    trim_end_by(base, CharClass::Slash) + path_query + url_encoded(crate::text::utf8_bytes(query)) + seq!['&'] + limit_key + seq!['=']
        + decimal(clamp_limit(limit))
}

fn build_search_url(base_url: &str, path_query: &str, query: &str, limit_key: &str, limit: usize) -> (url: String)
    ensures
        url@ == search_url(base_url@, path_query@, query@, limit_key@, limit),
{
    let b = chars_of(base_url);
    let bt = trimmed_end(&b, CharClass::Slash);
    let mut url = string_of(&bt);
    let pq = chars_of(path_query);
    push_chars(&mut url, &pq);
    let enc = url_encode(query);
    let ec = chars_of(enc.as_str());
    push_chars(&mut url, &ec);
    let amp: Vec<char> = vec!['&'];
    push_chars(&mut url, &amp);
    let lk = chars_of(limit_key);
    push_chars(&mut url, &lk);
    let eq: Vec<char> = vec!['='];
    push_chars(&mut url, &eq);
    let n: usize = if limit < 1 { 1 } else if limit > 50 { 50 } else { limit };
    push_decimal(&mut url, n as u64, 0);
    url
}

/// The skills.sh search request: `<base>/api/search?q=<query>&limit=<1..=50>`.
pub fn skills_search_url(base_url: &str, query: &str, limit: usize) -> (url: String)
    ensures
        url@ == search_url(base_url@, "/api/search?q="@, query@, "limit"@, limit),
{
    build_search_url(base_url, "/api/search?q=", query, "limit", limit)
}

/// The GitHub repository search request:
/// `<base>/search/repositories?q=<query>&per_page=<1..=50>`.
pub fn github_search_url(base_url: &str, query: &str, limit: usize) -> (url: String)
    ensures
        url@ == search_url(base_url@, "/search/repositories?q="@, query@, "per_page"@, limit),
{
    build_search_url(base_url, "/search/repositories?q=", query, "per_page", limit)
}

} // verus!
