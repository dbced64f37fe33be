//! Versioned skill pool ("basin") on top of the flat central repo.
//!
//! Layout inside a basin directory (a git repo owned by the user):
//!
//! ```text
//! basin/
//! ├── basin.json                     # manifest: schema version, name
//! └── skills/
//!     └── <skill-id>/
//!         ├── skill.json             # metadata: source, tags, versions, latest
//!         └── versions/
//!             └── <label>/           # full skill directory, one per version
//! ```
//!
//! Versions are materialized side by side so different tools on the same
//! machine can use different versions of the same skill at the same time.

use vstd::prelude::*;
use crate::strmap::StrMap;
use crate::paths::{path_join, join_path_in, PathStyle, host_path_style};
use crate::text::{chars_of, slice_vec, push_chars, push_decimal, decimal_padded};

verus! {

pub const BASIN_SCHEMA_VERSION: u32 = 1;
pub const BASIN_MANIFEST_FILE: &'static str = "basin.json";
pub const SKILL_META_FILE: &'static str = "skill.json";

/// `basin.json`.
#[derive(Debug, Clone)]
pub struct BasinManifest {
    pub schema_version: u32,
    pub name: String,
    pub created_at: String,
}

/// Where a skill came from.
#[derive(Debug, Clone)]
pub struct SkillSource {
    /// "git" | "skills_sh" | "local" | "zip"
    pub source_type: String,
    pub url: Option<String>,
    pub subpath: Option<String>,
    pub git_ref: Option<String>,
}

impl Default for SkillSource {
    fn default() -> (s: Self)
        ensures
            s.source_type@ == Seq::<char>::empty(),
            s.url is None,
            s.subpath is None,
            s.git_ref is None,
    {
        SkillSource { source_type: String::new(), url: None, subpath: None, git_ref: None }
    }
}

impl SkillSource {
    /// A copy, field by field.
    pub fn clone_source(&self) -> (c: SkillSource)
        ensures
            c == *self,
    {
        SkillSource {
            source_type: self.source_type.clone(),
            url: match &self.url { Some(u) => Some(u.clone()), None => None },
            subpath: match &self.subpath { Some(u) => Some(u.clone()), None => None },
            git_ref: match &self.git_ref { Some(u) => Some(u.clone()), None => None },
        }
    }
}

/// One version of a skill.
#[derive(Debug, Clone)]
pub struct VersionInfo {
    pub content_hash: String,
    pub added_at: String,
}

/// Security scan state of a skill.
#[derive(Debug, Clone)]
pub struct SecurityInfo {
    /// "clean" | "flagged" | "unscanned"
    pub scan_status: String,
    pub license: Option<String>,
    pub scanned_at: Option<String>,
}

impl Default for SecurityInfo {
    /// A skill nobody has scanned yet.
    fn default() -> (s: Self)
        ensures
            s.scan_status@ == "unscanned"@,
            s.license is None,
            s.scanned_at is None,
    {
        SecurityInfo { scan_status: String::from_str("unscanned"), license: None, scanned_at: None }
    }
}

/// `skills/<id>/skill.json`.
#[derive(Debug)]
pub struct SkillMeta {
    pub id: String,
    pub display_name: String,
    pub source: SkillSource,
    pub tags: Vec<String>,
    pub latest: String,
    /// version label -> info
    pub versions: StrMap<VersionInfo>,
    pub security: SecurityInfo,
}

/// What a migration of the flat central repo did.
#[derive(Debug, Default, Clone)]
pub struct MigrationReport {
    pub migrated: Vec<String>,
    pub skipped: Vec<String>,
}

/// Why a basin change was refused.
#[derive(Debug, Clone, PartialEq, Eq)]
pub enum BasinError {
    /// The skill already has a version with this label.
    DuplicateLabel { id: String, label: String },
}

/// `skills/<id>` under the basin, joined under the rules of `st`.
pub open spec fn skill_dir_of(st: PathStyle, basin_dir: Seq<char>, id: Seq<char>) -> Seq<char> {
    path_join(st, path_join(st, basin_dir, "skills"@), id)
}

/// `skills/<id>/versions/<label>` under the basin, joined under the rules
/// of `st`.
pub open spec fn version_dir_of(st: PathStyle, basin_dir: Seq<char>, id: Seq<char>, label: Seq<char>) -> Seq<char> {
    path_join(st, path_join(st, skill_dir_of(st, basin_dir, id), "versions"@), label)
}

/// `skills/<id>` under the basin, under the path rules of `st`.
pub fn skill_dir_in(basin_dir: &str, id: &str, st: PathStyle) -> (p: String)
    ensures
        p@ == skill_dir_of(st, basin_dir@, id@),
{
    let skills = join_path_in(basin_dir, "skills", st);
    join_path_in(skills.as_str(), id, st)
}

/// `skills/<id>/versions/<label>` under the basin, under the path rules of
/// `st`.
pub fn version_dir_in(basin_dir: &str, id: &str, label: &str, st: PathStyle) -> (p: String)
    ensures
        p@ == version_dir_of(st, basin_dir@, id@, label@),
{
    let s = skill_dir_in(basin_dir, id, st);
    let v = join_path_in(s.as_str(), "versions", st);
    join_path_in(v.as_str(), label, st)
}

/// `skills/<id>` under the basin, under the path rules of the platform this
/// program runs on.
pub fn skill_dir(basin_dir: &str, id: &str) -> (p: String)
    ensures
        p@ == skill_dir_of(PathStyle::Unix, basin_dir@, id@) || p@ == skill_dir_of(PathStyle::Windows, basin_dir@, id@),
{
    skill_dir_in(basin_dir, id, host_path_style())
}

/// `skills/<id>/versions/<label>` under the basin, under the path rules of
/// the platform this program runs on.
pub fn version_dir(basin_dir: &str, id: &str, label: &str) -> (p: String)
    ensures
        p@ == version_dir_of(PathStyle::Unix, basin_dir@, id@, label@) || p@ == version_dir_of(
            PathStyle::Windows,
            basin_dir@,
            id@,
            label@,
        ),
{
    version_dir_in(basin_dir, id, label, host_path_style())
}

/// What follows the first `:` of `h`, if there is one.
pub open spec fn after_colon(h: Seq<char>) -> Option<Seq<char>>
    decreases h.len(),
{
    if h.len() == 0 {
        None
    } else if h[0] == ':' {
        Some(h.drop_first())
    } else {
        after_colon(h.drop_first())
    }
}

/// A content hash without its algorithm prefix (`sha256:`), if it has one.
pub open spec fn hash_digits(h: Seq<char>) -> Seq<char> {
    match after_colon(h) {
        Some(t) => t,
        None => h,
    }
}

/// The label of a new snapshot: the semver from the source when there is
/// one; otherwise `<date>.<hash4>`, where hash4 is the first four characters
/// of the content hash after its algorithm prefix (all of them if fewer).
pub open spec fn spec_version_label(semver: Option<Seq<char>>, date: Seq<char>, content_hash: Seq<char>) -> Seq<char> {
    match semver {
        Some(v) => v,
        None => {
            let digits = hash_digits(content_hash);
            date + seq!['.'] + digits.take(if digits.len() < 4 { digits.len() as int } else { 4 })
        },
    }
}

proof fn lemma_after_colon(h: Seq<char>, i: int)
    requires
        0 <= i < h.len(),
        h[i] == ':',
        forall|j: int| 0 <= j < i ==> h[j] != ':',
    ensures
        after_colon(h) == Some(h.subrange(i + 1, h.len() as int)),
    decreases i,
{
    if i > 0 {
        let t = h.drop_first();
        assert forall|j: int| 0 <= j < i - 1 implies t[j] != ':' by {
            assert(t[j] == h[j + 1]);
        }
        lemma_after_colon(t, i - 1);
        assert(t.subrange(i, t.len() as int) == h.subrange(i + 1, h.len() as int));
    }
}

proof fn lemma_no_colon(h: Seq<char>)
    requires
        forall|j: int| 0 <= j < h.len() ==> h[j] != ':',
    ensures
        after_colon(h) is None,
    decreases h.len(),
{
    if h.len() > 0 {
        let t = h.drop_first();
        assert forall|j: int| 0 <= j < t.len() implies t[j] != ':' by {
            assert(t[j] == h[j + 1]);
        }
        lemma_no_colon(t);
    }
}

/// Version label for a new snapshot (see [`spec_version_label`]).
pub fn version_label(semver: Option<&str>, date: &str, content_hash: &str) -> (label: String)
    ensures
        label@ == spec_version_label(
            match semver {
                Some(v) => Some(v@),
                None => None,
            },
            date@,
            content_hash@,
        ),
{
    match semver {
        Some(v) => v.to_string(),
        None => {
            let h = chars_of(content_hash);
            let mut i: usize = 0;
            while i < h.len() && h[i] != ':'
                invariant
                    i <= h@.len(),
                    forall|j: int| 0 <= j < i ==> h@[j] != ':',
                decreases h.len() - i,
            {
                i = i + 1;
            }
            let start = if i < h.len() {
                proof {
                    lemma_after_colon(h@, i as int);
                }
                i + 1
            } else {
                proof {
                    lemma_no_colon(h@);
                    assert(h@.subrange(0, h@.len() as int) == h@);
                }
                0
            };
            let ghost digits = h@.subrange(start as int, h@.len() as int);
            assert(digits == hash_digits(content_hash@));
            let end = if h.len() - start < 4 { h.len() } else { start + 4 };
            let short = slice_vec(&h, start, end);
            assert(short@ == digits.take(if digits.len() < 4 { digits.len() as int } else { 4 }));
            let mut label = date.to_string();
            let dot: Vec<char> = vec!['.'];
            push_chars(&mut label, &dot);
            push_chars(&mut label, &short);
            label
        },
    }
}

/// A `local` source with nothing else known.
pub open spec fn is_local_source(s: SkillSource) -> bool {
    &&& s.source_type@ == "local"@
    &&& s.url is None
    &&& s.subpath is None
    &&& s.git_ref is None
}

/// Records `label` -> `info` as the newest version of skill `id`.
///
/// With existing metadata: refused when the label already exists; otherwise
/// the version is added, becomes `latest`, and a given `source` replaces the
/// recorded one. Without metadata: a fresh record whose display name is the
/// id, whose source is `source` or a plain `local` one, with no tags and an
/// unscanned security state.
pub fn add_skill_version(
    meta: Option<SkillMeta>,
    id: &str,
    label: &str,
    info: VersionInfo,
    source: Option<SkillSource>,
) -> (r: Result<SkillMeta, BasinError>)
    requires
        meta matches Some(m) ==> m.versions.wf(),
    ensures
        match meta {
            Some(m) => if m.versions.view().contains_key(label@) {
                r matches Err(BasinError::DuplicateLabel { id: i, label: l }) && i@ == id@ && l@ == label@
            } else {
                r matches Ok(n) && {
                    &&& n.versions.wf()
                    &&& n.versions.view() == m.versions.view().insert(label@, info)
                    &&& n.latest@ == label@
                    &&& n.id == m.id
                    &&& n.display_name == m.display_name
                    &&& n.tags == m.tags
                    &&& n.security == m.security
                    &&& n.source == match source {
                        Some(s) => s,
                        None => m.source,
                    }
                }
            },
            None => r matches Ok(n) && {
                &&& n.versions.wf()
                &&& n.versions.view() == Map::<Seq<char>, VersionInfo>::empty().insert(label@, info)
                &&& n.latest@ == label@
                &&& n.id@ == id@
                &&& n.display_name@ == id@
                &&& n.tags@.len() == 0
                &&& n.security.scan_status@ == "unscanned"@
                &&& n.security.license is None
                &&& n.security.scanned_at is None
                &&& match source {
                    Some(s) => n.source == s,
                    None => is_local_source(n.source),
                }
            },
        },
{
    match meta {
        Some(m) => {
            if m.versions.contains_key(label) {
                return Err(BasinError::DuplicateLabel { id: id.to_string(), label: label.to_string() });
            }
            let SkillMeta { id: mid, display_name, source: old_source, tags, latest: _, versions, security } = m;
            let mut versions = versions;
            versions.insert(label.to_string(), info);
            let source = match source {
                Some(s) => s,
                None => old_source,
            };
            Ok(SkillMeta { id: mid, display_name, source, tags, latest: label.to_string(), versions, security })
        },
        None => {
            let mut versions: StrMap<VersionInfo> = StrMap::new();
            versions.insert(label.to_string(), info);
            let source = match source {
                Some(s) => s,
                None => SkillSource { source_type: String::from_str("local"), url: None, subpath: None, git_ref: None },
            };
            Ok(
                SkillMeta {
                    id: id.to_string(),
                    display_name: id.to_string(),
                    source,
                    tags: Vec::new(),
                    latest: label.to_string(),
                    versions,
                    security: SecurityInfo::default(),
                },
            )
        },
    }
}

/// The manifest `basin_init` leaves in the basin: one already there is
/// kept as it is, so initializing twice is harmless; otherwise a fresh one.
pub fn basin_init(existing: Option<BasinManifest>, name: &str, created_at: &str) -> (m: BasinManifest)
    ensures
        match existing {
            Some(e) => m == e,
            None => m.schema_version == BASIN_SCHEMA_VERSION && m.name@ == name@ && m.created_at@ == created_at@,
        },
{
    match existing {
        Some(e) => e,
        None => BasinManifest {
            schema_version: BASIN_SCHEMA_VERSION,
            name: name.to_string(),
            created_at: created_at.to_string(),
        },
    }
}

/// The strings of a list, as text.
pub open spec fn names_of(v: Seq<String>) -> Seq<Seq<char>> {
    v.map_values(|s: String| s@)
}

/// The names whose presence in `present` is `want`, in order.
pub open spec fn names_where(names: Seq<Seq<char>>, present: Seq<Seq<char>>, want: bool) -> Seq<Seq<char>>
    decreases names.len(),
{
    if names.len() == 0 {
        Seq::empty()
    } else {
        let rest = names_where(names.drop_last(), present, want);
        if present.contains(names.last()) == want {
            rest.push(names.last())
        } else {
            rest
        }
    }
}

/// The source a migrated skill gets: the one the store knows, else `local`.
pub open spec fn migrated_source(sources: Map<Seq<char>, SkillSource>, id: Seq<char>, s: SkillSource) -> bool {
    if sources.contains_key(id) {
        s == sources[id]
    } else {
        is_local_source(s)
    }
}

/// Which skills of the flat central repo a migration moves into the basin,
/// and with which source. `central` lists the central repo's skill
/// directories in order; skills already in the basin (`in_basin`) are
/// skipped. Each migrated skill carries its source from the store, or a
/// plain `local` one.
pub fn migrate_central_to_basin(
    central: &Vec<String>,
    in_basin: &Vec<String>,
    sources: &StrMap<SkillSource>,
) -> (r: (MigrationReport, Vec<SkillSource>))
    requires
        sources.wf(),
    ensures
        names_of(r.0.migrated@) == names_where(names_of(central@), names_of(in_basin@), false),
        names_of(r.0.skipped@) == names_where(names_of(central@), names_of(in_basin@), true),
        r.1@.len() == r.0.migrated@.len(),
        forall|i: int| 0 <= i < r.1@.len() ==> migrated_source(sources@, r.0.migrated@[i]@, #[trigger] r.1@[i]),
{
    let ghost present = names_of(in_basin@);
    let mut migrated: Vec<String> = Vec::new();
    let mut skipped: Vec<String> = Vec::new();
    let mut picked: Vec<SkillSource> = Vec::new();
    let mut i: usize = 0;
    while i < central.len()
        invariant
            present == names_of(in_basin@),
            sources.wf(),
            i <= central@.len(),
            names_of(migrated@) == names_where(names_of(central@).subrange(0, i as int), present, false),
            names_of(skipped@) == names_where(names_of(central@).subrange(0, i as int), present, true),
            picked@.len() == migrated@.len(),
            forall|j: int| 0 <= j < picked@.len() ==> migrated_source(sources@, migrated@[j]@, #[trigger] picked@[j]),
        decreases central.len() - i,
    {
        let ghost pre = names_of(central@).subrange(0, i as int);
        let ghost next = names_of(central@).subrange(0, i + 1);
        assert(next.drop_last() == pre);
        assert(next.last() == central@[i as int]@);
        let id = &central[i];
        let here = crate::text::contains_str(in_basin, id.as_str());
        if here {
            let ghost before = skipped@;
            skipped.push(id.clone());
            assert(names_of(skipped@) =~= names_of(before).push(id@));
        } else {
            let src = match sources.get(id.as_str()) {
                Some(s) => s.clone_source(),
                None => SkillSource { source_type: String::from_str("local"), url: None, subpath: None, git_ref: None },
            };
            let ghost before = migrated@;
            migrated.push(id.clone());
            picked.push(src);
            assert(names_of(migrated@) =~= names_of(before).push(id@));
        }
        i = i + 1;
    }
    assert(names_of(central@).subrange(0, central@.len() as int) == names_of(central@));
    (MigrationReport { migrated, skipped }, picked)
}

/// The content hash recorded for `version` in the metadata, if any.
pub fn recorded_content_hash(meta: Option<&SkillMeta>, version: &str) -> (r: Option<String>)
    requires
        meta matches Some(m) ==> m.versions.wf(),
    ensures
        match meta {
            Some(m) => if m.versions.view().contains_key(version@) {
                r matches Some(h) && h@ == m.versions.view()[version@].content_hash@
            } else {
                r is None
            },
            None => r is None,
        },
{
    match meta {
        Some(m) => match m.versions.get(version) {
            Some(v) => Some(v.content_hash.clone()),
            None => None,
        },
        None => None,
    }
}

/// Gregorian leap year.
pub open spec fn is_leap_year(y: int) -> bool {
    (y % 4 == 0 && y % 100 != 0) || y % 400 == 0
}

pub open spec fn days_in_year(y: int) -> nat {
    if is_leap_year(y) { 366 } else { 365 }
}

/// Days in month `m` (1..=12) of year `y`.
pub open spec fn days_in_month(y: int, m: int) -> nat {
    if m == 2 {
        if is_leap_year(y) { 29 } else { 28 }
    } else if m == 4 || m == 6 || m == 9 || m == 11 {
        30
    } else {
        31
    }
}

/// Days from 1970-01-01 to January 1st of `y`.
pub open spec fn days_before_year(y: int) -> nat
    decreases y - 1970,
{
    if y <= 1970 {
        0
    } else {
        days_before_year(y - 1) + days_in_year(y - 1)
    }
}

/// Days from January 1st of `y` to the 1st of month `m`.
pub open spec fn days_before_month(y: int, m: int) -> nat
    decreases m,
{
    if m <= 1 {
        0
    } else {
        days_before_month(y, m - 1) + days_in_month(y, m - 1)
    }
}

/// `y`-`m`-`d` as `YYYY-MM-DD`.
pub open spec fn date_text(y: nat, m: nat, d: nat) -> Seq<char> {
    decimal_padded(y, 4) + seq!['-'] + decimal_padded(m, 2) + seq!['-'] + decimal_padded(d, 2)
}

/// `y`-`m`-`d` is a calendar date `n` days after 1970-01-01.
pub open spec fn is_civil_date_of(n: nat, y: nat, m: nat, d: nat) -> bool {
    &&& y >= 1970
    &&& 1 <= m <= 12
    &&& 1 <= d <= days_in_month(y as int, m as int)
    &&& days_before_year(y as int) + days_before_month(y as int, m as int) + d - 1 == n
}

proof fn lemma_days_before_year_grows(y: int)
    requires
        y >= 1970,
    ensures
        days_before_year(y) >= 365 * (y - 1970),
    decreases y - 1970,
{
    if y > 1970 {
        lemma_days_before_year_grows(y - 1);
    }
}

proof fn lemma_months_fill_year(y: int)
    ensures
        days_before_month(y, 13) == days_in_year(y),
{
    reveal_with_fuel(days_before_month, 13);
}

fn is_leap(y: u64) -> (r: bool)
    ensures
        r == is_leap_year(y as int),
{
    (y % 4 == 0 && y % 100 != 0) || y % 400 == 0
}

fn year_length(y: u64) -> (r: u64)
    ensures
        r == days_in_year(y as int),
{
    if is_leap(y) { 366 } else { 365 }
}

fn month_length(y: u64, m: u64) -> (r: u64)
    ensures
        r == days_in_month(y as int, m as int),
{
    if m == 2 {
        if is_leap(y) { 29 } else { 28 }
    } else if m == 4 || m == 6 || m == 9 || m == 11 {
        30
    } else {
        31
    }
}

proof fn lemma_days_before_year_mono(a: int, b: int)
    requires
        1970 <= a <= b,
    ensures
        days_before_year(a) <= days_before_year(b),
        a < b ==> days_before_year(a) + days_in_year(a) <= days_before_year(b),
    decreases b - a,
{
    if a < b {
        lemma_days_before_year_mono(a, b - 1);
    }
}

proof fn lemma_days_before_month_mono(y: int, a: int, b: int)
    requires
        1 <= a <= b <= 13,
    ensures
        days_before_month(y, a) <= days_before_month(y, b),
        a < b ==> days_before_month(y, a) + days_in_month(y, a) <= days_before_month(y, b),
    decreases b - a,
{
    if a < b {
        lemma_days_before_month_mono(y, a, b - 1);
    }
}

/// Each day count names one calendar date, so `unix_days_to_date` has one
/// answer for each day.
pub proof fn law_civil_date_unique(n: nat, y1: nat, m1: nat, d1: nat, y2: nat, m2: nat, d2: nat)
    requires
        is_civil_date_of(n, y1, m1, d1),
        is_civil_date_of(n, y2, m2, d2),
    ensures
        y1 == y2 && m1 == m2 && d1 == d2,
{
    // The day falls inside its year: before the start of the next one.
    lemma_months_fill_year(y1 as int);
    lemma_months_fill_year(y2 as int);
    lemma_days_before_month_mono(y1 as int, m1 as int, 13);
    lemma_days_before_month_mono(y2 as int, m2 as int, 13);
    if y1 < y2 {
        lemma_days_before_year_mono(y1 as int, y2 as int);
    } else if y2 < y1 {
        lemma_days_before_year_mono(y2 as int, y1 as int);
    }
    assert(y1 == y2);
    if m1 < m2 {
        lemma_days_before_month_mono(y1 as int, m1 as int, m2 as int);
    } else if m2 < m1 {
        lemma_days_before_month_mono(y1 as int, m2 as int, m1 as int);
    }
    assert(m1 == m2);
}

/// The calendar date `days` days after 1970-01-01, as `YYYY-MM-DD`.
pub fn unix_days_to_date(days: u64) -> (out: String)
    ensures
        exists|y: nat, m: nat, d: nat| is_civil_date_of(days as nat, y, m, d) && out@ == date_text(y, m, d),
{
    let mut y: u64 = 1970;
    let mut rem: u64 = days;
    while rem >= year_length(y)
        invariant
            y >= 1970,
            rem + days_before_year(y as int) == days,
        decreases rem,
    {
        proof {
            lemma_days_before_year_grows(y as int);
        }
        assert(y - 1970 <= days / 365) by (nonlinear_arith)
            requires
                days_before_year(y as int) >= 365 * (y - 1970),
                days_before_year(y as int) + 365 <= days,
        ;
        rem = rem - year_length(y);
        y = y + 1;
    }
    let mut m: u64 = 1;
    let ghost ry = rem;
    proof {
        lemma_months_fill_year(y as int);
    }
    while rem >= month_length(y, m)
        invariant
            1 <= m <= 12,
            rem + days_before_month(y as int, m as int) == ry,
            ry < days_in_year(y as int),
            days_before_month(y as int, 13) == days_in_year(y as int),
        decreases rem,
    {
        if m == 12 {
            assert(days_before_month(y as int, 13) == days_before_month(y as int, 12) + days_in_month(y as int, 12));
            assert(false);
        }
        rem = rem - month_length(y, m);
        m = m + 1;
    }
    let d = rem + 1;
    assert(is_civil_date_of(days as nat, y as nat, m as nat, d as nat));
    let mut out = String::new();
    push_decimal(&mut out, y, 4);
    let dash: Vec<char> = vec!['-'];
    push_chars(&mut out, &dash);
    push_decimal(&mut out, m, 2);
    push_chars(&mut out, &dash);
    push_decimal(&mut out, d, 2);
    assert(out@ == date_text(y as nat, m as nat, d as nat));
    out
}

} // verus!
