//! The basin's agent adapter registry (`agents.json`): vendored Tier2 tools
//! and user-defined custom tools, merged on top of the built-in adapters.
//! Tier1 tools are verified by hand and always resolve from the built-in
//! table; every other built-in is overridden by a registry entry.

use vstd::prelude::*;
use crate::paths::str_eq;
use crate::strmap::{StrMap, sorted_keys};
use crate::text::{chars_of, push_chars, is_ascii_digit, is_ascii_lower};

verus! {

/// File name of the registry inside the basin.
pub const AGENTS_FILE: &'static str = "agents.json";

/// Tier1 keys: verified by hand, never overridden by `agents.json`.
pub const TIER1_KEYS: [&'static str; 4] = ["claude_code", "cursor", "antigravity", "hermes_agent"];

/// Whether `k` is one of the Tier1 keys.
pub open spec fn is_tier1(k: Seq<char>) -> bool {
    exists|i: int| 0 <= i < 4 && #[trigger] TIER1_KEYS[i]@ == k
}

/// Whether `key` is one of the Tier1 keys.
pub fn is_tier1_key(key: &str) -> (r: bool)
    ensures
        r == is_tier1(key@),
{
    let keys = TIER1_KEYS;
    let mut i: usize = 0;
    while i < 4
        invariant
            i <= 4,
            keys == TIER1_KEYS,
            forall|j: int| 0 <= j < i ==> #[trigger] TIER1_KEYS[j]@ != key@,
        decreases 4 - i,
    {
        if str_eq(keys[i], key) {
            return true;
        }
        i = i + 1;
    }
    false
}

/// A custom key is made of lowercase ASCII letters, digits, `_` and `-`,
/// and is not empty.
pub open spec fn is_key_char(c: char) -> bool {
    is_ascii_lower(c) || is_ascii_digit(c) || c == '_' || c == '-'
}

pub open spec fn is_valid_key(k: Seq<char>) -> bool {
    k.len() > 0 && forall|i: int| 0 <= i < k.len() ==> is_key_char(#[trigger] k[i])
}

/// Whether `key` may name a custom tool.
pub fn is_valid_custom_tool_key(key: &str) -> (r: bool)
    ensures
        r == is_valid_key(key@),
{
    let cs = chars_of(key);
    if cs.len() == 0 {
        return false;
    }
    let mut i: usize = 0;
    while i < cs.len()
        invariant
            cs@ == key@,
            i <= cs@.len(),
            forall|j: int| 0 <= j < i ==> is_key_char(#[trigger] cs@[j]),
        decreases cs.len() - i,
    {
        let c = cs[i];
        if !(('a' <= c && c <= 'z') || ('0' <= c && c <= '9') || c == '_' || c == '-') {
            return false;
        }
        i = i + 1;
    }
    true
}

/// How an adapter reaches its skills: a directory, or an MCP endpoint.
#[derive(Debug, Clone, Copy, PartialEq, Eq, Structural)]
pub enum AdapterKind {
    Dir,
    Mcp,
}

/// One `agents.json` entry.
#[derive(Debug, Clone)]
pub struct AgentEntry {
    pub display_name: String,
    pub adapter_kind: AdapterKind,
    pub global_skills_dir: Option<String>,
    pub project_skills_dir: Option<String>,
    pub detect: Vec<String>,
    pub mcp_endpoint: Option<String>,
    pub default_strategy: String,
    pub verified: bool,
    pub source: Option<String>,
    pub custom: bool,
}

/// The entry, marked as user-defined.
pub open spec fn as_custom(e: AgentEntry) -> AgentEntry {
    AgentEntry { custom: true, ..e }
}

/// `agents.json`: a version and the entries by key, in key order.
#[derive(Debug, Clone)]
pub struct AgentRegistry {
    pub version: u32,
    pub adapters: StrMap<AgentEntry>,
}

impl AgentRegistry {
    pub open spec fn wf(&self) -> bool {
        self.adapters.wf()
    }

    pub open spec fn view(&self) -> Map<Seq<char>, AgentEntry> {
        self.adapters.view()
    }
}

/// Why a custom agent edit was refused.
#[derive(Debug, Clone, Copy, PartialEq, Eq, Structural)]
pub enum RegistryErrorKind {
    Tier1Key,
    InvalidKey,
    AlreadyExists,
    NotFound,
    VendoredUpdate,
    VendoredRemove,
}

/// A refused custom agent edit, with the key it was about.
#[derive(Debug, Clone)]
pub struct RegistryError {
    pub kind: RegistryErrorKind,
    pub key: String,
}

impl RegistryError {
    /// The message a user sees.
    pub fn message(&self) -> (m: String)
        ensures
            m@ == registry_error_prefix(self.kind) + self.key@,
    {
        let mut m = match self.kind {
            RegistryErrorKind::Tier1Key => String::from_str("custom agent key conflicts with a Tier1 built-in tool: "),
            RegistryErrorKind::InvalidKey => String::from_str("custom agent key contains invalid characters: "),
            RegistryErrorKind::AlreadyExists => String::from_str("agent key already exists: "),
            RegistryErrorKind::NotFound => String::from_str("agent key not found: "),
            RegistryErrorKind::VendoredUpdate => String::from_str("cannot modify a vendored (non-custom) agent entry: "),
            RegistryErrorKind::VendoredRemove => String::from_str("cannot remove a vendored (non-custom) agent entry: "),
        };
        let kc = chars_of(self.key.as_str());
        push_chars(&mut m, &kc);
        m
    }
}

pub open spec fn registry_error_prefix(k: RegistryErrorKind) -> Seq<char> {
    match k {
        RegistryErrorKind::Tier1Key => "custom agent key conflicts with a Tier1 built-in tool: "@,
        RegistryErrorKind::InvalidKey => "custom agent key contains invalid characters: "@,
        RegistryErrorKind::AlreadyExists => "agent key already exists: "@,
        RegistryErrorKind::NotFound => "agent key not found: "@,
        RegistryErrorKind::VendoredUpdate => "cannot modify a vendored (non-custom) agent entry: "@,
        RegistryErrorKind::VendoredRemove => "cannot remove a vendored (non-custom) agent entry: "@,
    }
}

/// The key check shared by adding and updating.
pub open spec fn key_refusal(k: Seq<char>) -> Option<RegistryErrorKind> {
    if is_tier1(k) {
        Some(RegistryErrorKind::Tier1Key)
    } else if !is_valid_key(k) {
        Some(RegistryErrorKind::InvalidKey)
    } else {
        None
    }
}

/// What adding a custom agent does to the entries.
pub open spec fn spec_add(m: Map<Seq<char>, AgentEntry>, k: Seq<char>, e: AgentEntry) -> Result<Map<Seq<char>, AgentEntry>, RegistryErrorKind> {
    match key_refusal(k) {
        Some(err) => Err(err),
        None => if m.contains_key(k) {
            Err(RegistryErrorKind::AlreadyExists)
        } else {
            Ok(m.insert(k, as_custom(e)))
        },
    }
}

/// What updating a custom agent does to the entries.
pub open spec fn spec_update(m: Map<Seq<char>, AgentEntry>, k: Seq<char>, e: AgentEntry) -> Result<Map<Seq<char>, AgentEntry>, RegistryErrorKind> {
    match key_refusal(k) {
        Some(err) => Err(err),
        None => if !m.contains_key(k) {
            Err(RegistryErrorKind::NotFound)
        } else if !m[k].custom {
            Err(RegistryErrorKind::VendoredUpdate)
        } else {
            Ok(m.insert(k, as_custom(e)))
        },
    }
}

/// What removing a custom agent does to the entries.
pub open spec fn spec_remove(m: Map<Seq<char>, AgentEntry>, k: Seq<char>) -> Result<Map<Seq<char>, AgentEntry>, RegistryErrorKind> {
    if !m.contains_key(k) {
        Err(RegistryErrorKind::NotFound)
    } else if !m[k].custom {
        Err(RegistryErrorKind::VendoredRemove)
    } else {
        Ok(m.remove(k))
    }
}

/// The outcome of an edit, seen through the registry's entries.
pub open spec fn edit_outcome(r: Result<AgentRegistry, RegistryError>) -> Result<Map<Seq<char>, AgentEntry>, RegistryErrorKind> {
    match r {
        Ok(reg) => Ok(reg@),
        Err(e) => Err(e.kind),
    }
}

fn validate_custom_key(key: &str) -> (r: Result<(), RegistryError>)
    ensures
        match r {
            Ok(_) => key_refusal(key@).is_none(),
            Err(e) => key_refusal(key@) == Some(e.kind) && e.key@ == key@,
        },
{
    if is_tier1_key(key) {
        return Err(RegistryError { kind: RegistryErrorKind::Tier1Key, key: key.to_string() });
    }
    if !is_valid_custom_tool_key(key) {
        return Err(RegistryError { kind: RegistryErrorKind::InvalidKey, key: key.to_string() });
    }
    Ok(())
}

/// Adds a new custom agent entry, marked custom. Refused for a Tier1 key,
/// a key with invalid characters, or a key already present.
pub fn add_custom_agent(registry: AgentRegistry, key: &str, entry: AgentEntry) -> (r: Result<AgentRegistry, RegistryError>)
    requires
        registry.wf(),
    ensures
        edit_outcome(r) == spec_add(registry@, key@, entry),
        r matches Ok(reg) ==> reg.wf() && reg.version == registry.version,
        r matches Err(e) ==> e.key@ == key@,
{
    if let Err(e) = validate_custom_key(key) {
        return Err(e);
    }
    if registry.adapters.contains_key(key) {
        return Err(RegistryError { kind: RegistryErrorKind::AlreadyExists, key: key.to_string() });
    }
    let mut registry = registry;
    let mut entry = entry;
    entry.custom = true;
    registry.adapters.insert(key.to_string(), entry);
    Ok(registry)
}

/// Replaces an existing custom agent entry. Refused for a Tier1 or invalid
/// key, a missing key, or a vendored (non-custom) entry.
pub fn update_custom_agent(registry: AgentRegistry, key: &str, entry: AgentEntry) -> (r: Result<AgentRegistry, RegistryError>)
    requires
        registry.wf(),
    ensures
        edit_outcome(r) == spec_update(registry@, key@, entry),
        r matches Ok(reg) ==> reg.wf() && reg.version == registry.version,
        r matches Err(e) ==> e.key@ == key@,
{
    if let Err(e) = validate_custom_key(key) {
        return Err(e);
    }
    match registry.adapters.get(key) {
        None => {
            return Err(RegistryError { kind: RegistryErrorKind::NotFound, key: key.to_string() });
        },
        Some(existing) => {
            if !existing.custom {
                return Err(RegistryError { kind: RegistryErrorKind::VendoredUpdate, key: key.to_string() });
            }
        },
    }
    let mut registry = registry;
    let mut entry = entry;
    entry.custom = true;
    registry.adapters.insert(key.to_string(), entry);
    Ok(registry)
}

/// Removes a custom agent entry. Refused for a missing key or a vendored
/// entry.
pub fn remove_custom_agent(registry: AgentRegistry, key: &str) -> (r: Result<AgentRegistry, RegistryError>)
    requires
        registry.wf(),
    ensures
        edit_outcome(r) == spec_remove(registry@, key@),
        r matches Ok(reg) ==> reg.wf() && reg.version == registry.version,
        r matches Err(e) ==> e.key@ == key@,
{
    match registry.adapters.get(key) {
        None => {
            return Err(RegistryError { kind: RegistryErrorKind::NotFound, key: key.to_string() });
        },
        Some(existing) => {
            if !existing.custom {
                return Err(RegistryError { kind: RegistryErrorKind::VendoredRemove, key: key.to_string() });
            }
        },
    }
    let mut registry = registry;
    registry.adapters.remove(key);
    Ok(registry)
}

/// A built-in adapter as the resolver sees it: its key and name, its
/// default global skills directory where one could be resolved, its
/// project-relative skills directory, and whether the tool config enables it.
#[derive(Debug, Clone)]
pub struct BuiltinAdapter {
    pub key: String,
    pub display_name: String,
    pub skills_dir: Option<String>,
    pub project_skills_dir: String,
    pub enabled: bool,
}

/// A fully resolved adapter, from the built-in table or from `agents.json`.
/// For a registry entry, `skills_dir` is its global skills directory as
/// written there.
#[derive(Debug, Clone)]
pub struct ResolvedAdapter {
    pub key: String,
    pub display_name: String,
    pub adapter_kind: AdapterKind,
    pub skills_dir: Option<String>,
    pub project_skills_dir: Option<String>,
    pub mcp_endpoint: Option<String>,
    pub default_strategy: String,
    pub is_custom: bool,
    pub verified: bool,
    pub enabled: bool,
}

/// Where a resolved adapter comes from.
pub enum AdapterSource {
    Builtin(BuiltinAdapter),
    Entry(Seq<char>, AgentEntry),
}

/// `r` is the adapter that `src` resolves to.
pub open spec fn resolves_to(r: ResolvedAdapter, src: AdapterSource) -> bool {
    match src {
        AdapterSource::Builtin(b) => {
            &&& r.key == b.key
            &&& r.display_name == b.display_name
            &&& r.adapter_kind == AdapterKind::Dir
            &&& r.skills_dir == b.skills_dir
            &&& r.project_skills_dir == Some(b.project_skills_dir)
            &&& r.mcp_endpoint.is_none()
            &&& r.default_strategy@ == "auto"@
            &&& !r.is_custom
            &&& r.verified
            &&& r.enabled == b.enabled
        },
        AdapterSource::Entry(k, e) => {
            &&& r.key@ == k
            &&& r.display_name == e.display_name
            &&& r.adapter_kind == e.adapter_kind
            &&& r.skills_dir == e.global_skills_dir
            &&& r.project_skills_dir == e.project_skills_dir
            &&& r.mcp_endpoint == e.mcp_endpoint
            &&& r.default_strategy == e.default_strategy
            &&& r.is_custom == e.custom
            &&& r.verified == e.verified
            &&& r.enabled
        },
    }
}

/// An adapter resolved from a registry entry takes the entry's key and its
/// directories: its skills directory is the entry's global skills
/// directory and its project directory the entry's project directory; an
/// adapter resolved from a built-in takes the built-in's skills directory.
pub proof fn law_resolved_adapters_keep_their_dirs(
    bs: Seq<BuiltinAdapter>,
    m: Map<Seq<char>, AgentEntry>,
    out: Seq<ResolvedAdapter>,
)
    requires
        out.len() == resolution(bs, m).len(),
        forall|i: int| 0 <= i < out.len() ==> resolves_to(#[trigger] out[i], resolution(bs, m)[i]),
    ensures
        forall|i: int|
            0 <= i < out.len() ==> match #[trigger] resolution(bs, m)[i] {
                AdapterSource::Entry(k, e) => {
                    &&& out[i].key@ == k
                    &&& out[i].skills_dir == e.global_skills_dir
                    &&& out[i].project_skills_dir == e.project_skills_dir
                },
                AdapterSource::Builtin(b) => {
                    &&& out[i].key == b.key
                    &&& out[i].skills_dir == b.skills_dir
                },
            },
{
    assert forall|i: int| 0 <= i < out.len() implies match #[trigger] resolution(bs, m)[i] {
        AdapterSource::Entry(k, e) => {
            &&& out[i].key@ == k
            &&& out[i].skills_dir == e.global_skills_dir
            &&& out[i].project_skills_dir == e.project_skills_dir
        },
        AdapterSource::Builtin(b) => {
            &&& out[i].key == b.key
            &&& out[i].skills_dir == b.skills_dir
        },
    } by {
        assert(resolves_to(out[i], resolution(bs, m)[i]));
    }
}

/// The keys of the built-in adapters.
pub open spec fn builtin_keys(bs: Seq<BuiltinAdapter>) -> Set<Seq<char>> {
    Set::new(|k: Seq<char>| exists|i: int| 0 <= i < bs.len() && #[trigger] bs[i].key@ == k)
}

/// The Tier1 keys among them.
pub open spec fn tier1_builtin_keys(bs: Seq<BuiltinAdapter>) -> Set<Seq<char>> {
    Set::new(|k: Seq<char>| is_tier1(k) && exists|i: int| 0 <= i < bs.len() && #[trigger] bs[i].key@ == k)
}

/// First pass: every Tier1 built-in, from the built-in table.
pub open spec fn tier1_pass(bs: Seq<BuiltinAdapter>) -> Seq<AdapterSource>
    decreases bs.len(),
{
    if bs.len() == 0 {
        Seq::empty()
    } else {
        let rest = tier1_pass(bs.drop_first());
        if is_tier1(bs[0].key@) {
            seq![AdapterSource::Builtin(bs[0])] + rest
        } else {
            rest
        }
    }
}

/// Second pass: each built-in key not seen yet, from the registry when it
/// has an entry and from the built-in table otherwise.
pub open spec fn builtin_pass(bs: Seq<BuiltinAdapter>, m: Map<Seq<char>, AgentEntry>, seen: Set<Seq<char>>) -> Seq<AdapterSource>
    decreases bs.len(),
{
    if bs.len() == 0 {
        Seq::empty()
    } else {
        let k = bs[0].key@;
        if seen.contains(k) {
            builtin_pass(bs.drop_first(), m, seen)
        } else {
            let src = if m.contains_key(k) { AdapterSource::Entry(k, m[k]) } else { AdapterSource::Builtin(bs[0]) };
            seq![src] + builtin_pass(bs.drop_first(), m, seen.insert(k))
        }
    }
}

/// Third pass: the remaining registry entries in key order, Tier1 keys left out.
pub open spec fn entry_pass(ks: Seq<Seq<char>>, m: Map<Seq<char>, AgentEntry>, seen: Set<Seq<char>>) -> Seq<AdapterSource>
    decreases ks.len(),
{
    if ks.len() == 0 {
        Seq::empty()
    } else {
        let rest = entry_pass(ks.drop_first(), m, seen);
        if seen.contains(ks[0]) || is_tier1(ks[0]) {
            rest
        } else {
            seq![AdapterSource::Entry(ks[0], m[ks[0]])] + rest
        }
    }
}

/// Where each resolved adapter comes from, in output order.
pub open spec fn resolution(bs: Seq<BuiltinAdapter>, m: Map<Seq<char>, AgentEntry>) -> Seq<AdapterSource> {
    tier1_pass(bs) + builtin_pass(bs, m, tier1_builtin_keys(bs)) + entry_pass(sorted_keys(m.dom()), m, builtin_keys(bs))
}

/// The strings of a list, as a set.
pub open spec fn name_set(v: Seq<String>) -> Set<Seq<char>> {
    Set::new(|k: Seq<char>| exists|i: int| 0 <= i < v.len() && #[trigger] v[i]@ == k)
}

proof fn lemma_name_set_push(v: Seq<String>, s: String)
    ensures
        name_set(v.push(s)) == name_set(v).insert(s@),
{
    let w = v.push(s);
    assert forall|k: Seq<char>| name_set(w).contains(k) <==> name_set(v).insert(s@).contains(k) by {
        if name_set(w).contains(k) {
            let i = choose|i: int| 0 <= i < w.len() && #[trigger] w[i]@ == k;
            if i < v.len() {
                assert(v[i]@ == k);
            }
        }
        if name_set(v).contains(k) {
            let i = choose|i: int| 0 <= i < v.len() && #[trigger] v[i]@ == k;
            assert(w[i]@ == k);
        }
        if k == s@ {
            assert(w[v.len() as int]@ == k);
        }
    }
    assert(name_set(w) =~= name_set(v).insert(s@));
}

fn contains_name(names: &Vec<String>, s: &str) -> (r: bool)
    ensures
        r == name_set(names@).contains(s@),
{
    let r = crate::text::contains_str(names, s);
    let ghost v = names@.map_values(|x: String| x@);
    proof {
        if name_set(names@).contains(s@) {
            let j = choose|j: int| 0 <= j < names@.len() && #[trigger] names@[j]@ == s@;
            assert(v[j] == s@);
        }
        if r {
            let j = choose|j: int| 0 <= j < v.len() && v[j] == s@;
            assert(names@[j]@ == s@);
        }
    }
    r
}

fn clone_opt(o: &Option<String>) -> (r: Option<String>)
    ensures
        r == *o,
{
    match o {
        Some(s) => Some(s.clone()),
        None => None,
    }
}

fn resolved_from_builtin(b: &BuiltinAdapter) -> (r: ResolvedAdapter)
    ensures
        resolves_to(r, AdapterSource::Builtin(*b)),
{
    ResolvedAdapter {
        key: b.key.clone(),
        display_name: b.display_name.clone(),
        adapter_kind: AdapterKind::Dir,
        skills_dir: clone_opt(&b.skills_dir),
        project_skills_dir: Some(b.project_skills_dir.clone()),
        mcp_endpoint: None,
        default_strategy: String::from_str("auto"),
        is_custom: false,
        verified: true,
        enabled: b.enabled,
    }
}

fn resolved_from_entry(key: &str, e: &AgentEntry) -> (r: ResolvedAdapter)
    ensures
        resolves_to(r, AdapterSource::Entry(key@, *e)),
{
    ResolvedAdapter {
        key: key.to_string(),
        display_name: e.display_name.clone(),
        adapter_kind: e.adapter_kind,
        skills_dir: clone_opt(&e.global_skills_dir),
        project_skills_dir: clone_opt(&e.project_skills_dir),
        mcp_endpoint: clone_opt(&e.mcp_endpoint),
        default_strategy: e.default_strategy.clone(),
        is_custom: e.custom,
        verified: e.verified,
        enabled: true,
    }
}

/// Merges the built-in adapters with the registry: (1) every Tier1 built-in
/// from the built-in table, whatever the registry says; (2) each other
/// built-in key once, from the registry when it has an entry; (3) the
/// remaining registry entries in key order.
pub fn resolve_all_adapters(registry: &AgentRegistry, builtins: &Vec<BuiltinAdapter>) -> (out: Vec<ResolvedAdapter>)
    requires
        registry.wf(),
    ensures
        out@.len() == resolution(builtins@, registry@).len(),
        forall|i: int| 0 <= i < out@.len() ==> resolves_to(#[trigger] out@[i], resolution(builtins@, registry@)[i]),
        forall|i: int|
            0 <= i < out@.len() ==> (#[trigger] resolution(builtins@, registry@)[i] matches AdapterSource::Entry(k, e)
                ==> out@[i].skills_dir == e.global_skills_dir),
{
    let ghost bs = builtins@;
    let ghost m = registry@;
    let mut out: Vec<ResolvedAdapter> = Vec::new();
    let mut seen: Vec<String> = Vec::new();
    let ghost mut done: Seq<AdapterSource> = Seq::empty();

    // Tier1 built-ins.
    assert(bs.subrange(0, bs.len() as int) =~= bs);
    let mut i: usize = 0;
    while i < builtins.len()
        invariant
            bs == builtins@,
            i <= bs.len(),
            done + tier1_pass(bs.subrange(i as int, bs.len() as int)) == tier1_pass(bs),
            out@.len() == done.len(),
            forall|j: int| 0 <= j < out@.len() ==> resolves_to(#[trigger] out@[j], done[j]),
            name_set(seen@) == Set::new(|k: Seq<char>| is_tier1(k) && exists|j: int| 0 <= j < i && #[trigger] bs[j].key@ == k),
        decreases builtins.len() - i,
    {
        let ghost rest = bs.subrange(i as int, bs.len() as int);
        assert(rest.drop_first() == bs.subrange(i + 1, bs.len() as int));
        assert(rest[0] == bs[i as int]);
        let b = &builtins[i];
        if is_tier1_key(b.key.as_str()) {
            out.push(resolved_from_builtin(b));
            proof {
                lemma_name_set_push(seen@, b.key);
                done = done.push(AdapterSource::Builtin(*b));
                assert(seq![AdapterSource::Builtin(*b)] + tier1_pass(rest.drop_first()) == tier1_pass(rest));
                assert(done + tier1_pass(rest.drop_first()) =~= (done.drop_last() + tier1_pass(rest)));
            }
            seen.push(b.key.clone());
        }
        proof {
            assert(name_set(seen@) =~= Set::new(|k: Seq<char>| is_tier1(k) && exists|j: int| 0 <= j < i + 1 && #[trigger] bs[j].key@ == k)) by {
                assert forall|k: Seq<char>| name_set(seen@).contains(k) <==> (is_tier1(k) && exists|j: int| 0 <= j < i + 1 && #[trigger] bs[j].key@ == k) by {
                    if is_tier1(k) && exists|j: int| 0 <= j < i + 1 && #[trigger] bs[j].key@ == k {
                        let j = choose|j: int| 0 <= j < i + 1 && #[trigger] bs[j].key@ == k;
                        if j < i {
                            assert(exists|j2: int| 0 <= j2 < i && #[trigger] bs[j2].key@ == k);
                        }
                    }
                }
            }
        }
        i = i + 1;
    }
    proof {
        assert(bs.subrange(bs.len() as int, bs.len() as int) =~= Seq::<BuiltinAdapter>::empty());
        assert(done =~= tier1_pass(bs));
        assert(name_set(seen@) =~= tier1_builtin_keys(bs));
    }
    let ghost pass1 = done;
    assert(done.subrange(pass1.len() as int, done.len() as int) =~= Seq::<AdapterSource>::empty());
    assert(done.subrange(0, pass1.len() as int) =~= pass1);
    assert(name_set(seen@) =~= tier1_builtin_keys(bs) + Set::new(|k: Seq<char>| exists|j: int| 0 <= j < 0 && #[trigger] bs[j].key@ == k));

    // The other built-ins, each key once.
    let mut i: usize = 0;
    while i < builtins.len()
        invariant
            bs == builtins@,
            m == registry@,
            registry.wf(),
            i <= bs.len(),
            pass1 == tier1_pass(bs),
            done.len() >= pass1.len(),
            done.subrange(0, pass1.len() as int) == pass1,
            done.subrange(pass1.len() as int, done.len() as int)
                + builtin_pass(bs.subrange(i as int, bs.len() as int), m, name_set(seen@))
                == builtin_pass(bs, m, tier1_builtin_keys(bs)),
            out@.len() == done.len(),
            forall|j: int| 0 <= j < out@.len() ==> resolves_to(#[trigger] out@[j], done[j]),
            name_set(seen@) == tier1_builtin_keys(bs) + Set::new(|k: Seq<char>| exists|j: int| 0 <= j < i && #[trigger] bs[j].key@ == k),
        decreases builtins.len() - i,
    {
        let ghost rest = bs.subrange(i as int, bs.len() as int);
        let ghost before = done;
        assert(rest.drop_first() == bs.subrange(i + 1, bs.len() as int));
        assert(rest[0] == bs[i as int]);
        let b = &builtins[i];
        let ghost k = b.key@;
        if !contains_name(&seen, b.key.as_str()) {
            match registry.adapters.get(b.key.as_str()) {
                Some(e) => {
                    out.push(resolved_from_entry(b.key.as_str(), e));
                    proof {
                        done = done.push(AdapterSource::Entry(k, m[k]));
                    }
                },
                None => {
                    out.push(resolved_from_builtin(b));
                    proof {
                        done = done.push(AdapterSource::Builtin(*b));
                    }
                },
            }
            proof {
                lemma_name_set_push(seen@, b.key);
                assert(done.subrange(0, pass1.len() as int) =~= pass1);
                assert(done.subrange(pass1.len() as int, done.len() as int)
                    =~= before.subrange(pass1.len() as int, before.len() as int).push(done.last()));
                assert(done.subrange(pass1.len() as int, done.len() as int)
                    + builtin_pass(rest.drop_first(), m, name_set(seen@).insert(k))
                    =~= before.subrange(pass1.len() as int, before.len() as int)
                    + builtin_pass(rest, m, name_set(seen@)));
            }
            seen.push(b.key.clone());
        }
        proof {
            let target = tier1_builtin_keys(bs) + Set::new(|kk: Seq<char>| exists|j: int| 0 <= j < i + 1 && #[trigger] bs[j].key@ == kk);
            assert forall|kk: Seq<char>| name_set(seen@).contains(kk) <==> target.contains(kk) by {
                if Set::new(|kk: Seq<char>| exists|j: int| 0 <= j < i + 1 && #[trigger] bs[j].key@ == kk).contains(kk) {
                    let j = choose|j: int| 0 <= j < i + 1 && #[trigger] bs[j].key@ == kk;
                    if j < i {
                        assert(exists|j2: int| 0 <= j2 < i && #[trigger] bs[j2].key@ == kk);
                    }
                }
            }
            assert(name_set(seen@) =~= target);
        }
        i = i + 1;
    }
    proof {
        assert(bs.subrange(bs.len() as int, bs.len() as int) =~= Seq::<BuiltinAdapter>::empty());
        assert forall|kk: Seq<char>| name_set(seen@).contains(kk) <==> builtin_keys(bs).contains(kk) by {
            if tier1_builtin_keys(bs).contains(kk) {
                let j = choose|j: int| 0 <= j < bs.len() && #[trigger] bs[j].key@ == kk;
                assert(builtin_keys(bs).contains(kk));
            }
            if builtin_keys(bs).contains(kk) {
                let j = choose|j: int| 0 <= j < bs.len() && #[trigger] bs[j].key@ == kk;
                assert(Set::new(|k: Seq<char>| exists|j: int| 0 <= j < bs.len() && #[trigger] bs[j].key@ == k).contains(kk));
            }
        }
        assert(name_set(seen@) =~= builtin_keys(bs));
        assert(done =~= pass1 + builtin_pass(bs, m, tier1_builtin_keys(bs))) by {
            assert(done == done.subrange(0, pass1.len() as int) + done.subrange(pass1.len() as int, done.len() as int));
        }
        registry.adapters.lemma_sorted_keys();
        registry.adapters.lemma_view();
    }
    let ghost pass12 = done;
    let ghost ks = registry.adapters.keys();
    assert(done.subrange(pass12.len() as int, done.len() as int) =~= Seq::<AdapterSource>::empty());
    assert(done.subrange(0, pass12.len() as int) =~= pass12);
    assert(ks.subrange(0, ks.len() as int) =~= ks);

    // The registry-only entries, in key order.
    let n = registry.adapters.len();
    let mut i: usize = 0;
    while i < n
        invariant
            m == registry@,
            registry.wf(),
            n == ks.len(),
            ks == registry.adapters.keys(),
            ks == sorted_keys(m.dom()),
            forall|j: int| 0 <= j < ks.len() ==> m[#[trigger] ks[j]] == registry.adapters.vals()[j],
            i <= n,
            name_set(seen@) == builtin_keys(bs),
            done.len() >= pass12.len(),
            done.subrange(0, pass12.len() as int) == pass12,
            done.subrange(pass12.len() as int, done.len() as int)
                + entry_pass(ks.subrange(i as int, ks.len() as int), m, builtin_keys(bs))
                == entry_pass(ks, m, builtin_keys(bs)),
            out@.len() == done.len(),
            forall|j: int| 0 <= j < out@.len() ==> resolves_to(#[trigger] out@[j], done[j]),
        decreases n - i,
    {
        let ghost rest = ks.subrange(i as int, ks.len() as int);
        let ghost before = done;
        assert(rest.drop_first() == ks.subrange(i + 1, ks.len() as int));
        assert(rest[0] == ks[i as int]);
        let key = registry.adapters.key_at(i);
        let e = registry.adapters.value_at(i);
        let ghost k = key@;
        let in_seen = contains_name(&seen, key.as_str());
        if !in_seen && !is_tier1_key(key.as_str()) {
            out.push(resolved_from_entry(key.as_str(), e));
            proof {
                done = done.push(AdapterSource::Entry(k, m[k]));
                assert(done.subrange(0, pass12.len() as int) =~= pass12);
                assert(done.subrange(pass12.len() as int, done.len() as int)
                    + entry_pass(rest.drop_first(), m, builtin_keys(bs))
                    =~= before.subrange(pass12.len() as int, before.len() as int)
                    + entry_pass(rest, m, builtin_keys(bs)));
            }
        }
        i = i + 1;
    }
    proof {
        assert(ks.subrange(n as int, ks.len() as int) =~= Seq::<Seq<char>>::empty());
        assert(done =~= pass12 + entry_pass(ks, m, builtin_keys(bs))) by {
            assert(done == done.subrange(0, pass12.len() as int) + done.subrange(pass12.len() as int, done.len() as int));
        }
        law_resolved_adapters_keep_their_dirs(bs, m, out@);
    }
    out
}

/// A registry entry under a Tier1 key.
pub open spec fn is_tier1_entry(src: AdapterSource) -> bool {
    match src {
        AdapterSource::Entry(k, _) => is_tier1(k),
        AdapterSource::Builtin(_) => false,
    }
}

proof fn lemma_tier1_pass(bs: Seq<BuiltinAdapter>)
    ensures
        forall|j: int| 0 <= j < tier1_pass(bs).len() ==> !is_tier1_entry(#[trigger] tier1_pass(bs)[j]),
        forall|i: int| 0 <= i < bs.len() && is_tier1(bs[i].key@) ==> tier1_pass(bs).contains(AdapterSource::Builtin(#[trigger] bs[i])),
    decreases bs.len(),
{
    if bs.len() > 0 {
        let t = bs.drop_first();
        lemma_tier1_pass(t);
        let rest = tier1_pass(t);
        assert forall|i: int| 0 <= i < bs.len() && is_tier1(bs[i].key@) implies tier1_pass(bs).contains(AdapterSource::Builtin(#[trigger] bs[i])) by {
            if i == 0 {
                assert(tier1_pass(bs)[0] == AdapterSource::Builtin(bs[0]));
            } else {
                assert(t[i - 1] == bs[i]);
                let j = choose|j: int| 0 <= j < rest.len() && rest[j] == AdapterSource::Builtin(t[i - 1]);
                if is_tier1(bs[0].key@) {
                    assert(tier1_pass(bs)[j + 1] == rest[j]);
                } else {
                    assert(tier1_pass(bs)[j] == rest[j]);
                }
            }
        }
        assert forall|j: int| 0 <= j < tier1_pass(bs).len() implies !is_tier1_entry(#[trigger] tier1_pass(bs)[j]) by {
            if is_tier1(bs[0].key@) {
                if j > 0 {
                    assert(tier1_pass(bs)[j] == rest[j - 1]);
                }
            } else {
                assert(tier1_pass(bs)[j] == rest[j]);
            }
        }
    }
}

proof fn lemma_builtin_pass_no_tier1(bs: Seq<BuiltinAdapter>, m: Map<Seq<char>, AgentEntry>, seen: Set<Seq<char>>)
    requires
        forall|i: int| 0 <= i < bs.len() && is_tier1(#[trigger] bs[i].key@) ==> seen.contains(bs[i].key@),
    ensures
        forall|j: int| 0 <= j < builtin_pass(bs, m, seen).len() ==> !is_tier1_entry(#[trigger] builtin_pass(bs, m, seen)[j]),
    decreases bs.len(),
{
    if bs.len() > 0 {
        let t = bs.drop_first();
        let k = bs[0].key@;
        let seen2 = if seen.contains(k) { seen } else { seen.insert(k) };
        assert forall|i: int| 0 <= i < t.len() && is_tier1(#[trigger] t[i].key@) implies seen2.contains(t[i].key@) by {
            assert(t[i] == bs[i + 1]);
        }
        lemma_builtin_pass_no_tier1(t, m, seen2);
        let rest = builtin_pass(t, m, seen2);
        let all = builtin_pass(bs, m, seen);
        assert forall|j: int| 0 <= j < all.len() implies !is_tier1_entry(#[trigger] all[j]) by {
            if seen.contains(k) {
                assert(all[j] == rest[j]);
            } else if j > 0 {
                assert(all[j] == rest[j - 1]);
            } else {
                assert(!is_tier1(k));
            }
        }
    }
}

proof fn lemma_entry_pass_no_tier1(ks: Seq<Seq<char>>, m: Map<Seq<char>, AgentEntry>, seen: Set<Seq<char>>)
    ensures
        forall|j: int| 0 <= j < entry_pass(ks, m, seen).len() ==> !is_tier1_entry(#[trigger] entry_pass(ks, m, seen)[j]),
    decreases ks.len(),
{
    if ks.len() > 0 {
        let t = ks.drop_first();
        lemma_entry_pass_no_tier1(t, m, seen);
        let rest = entry_pass(t, m, seen);
        let all = entry_pass(ks, m, seen);
        assert forall|j: int| 0 <= j < all.len() implies !is_tier1_entry(#[trigger] all[j]) by {
            if seen.contains(ks[0]) || is_tier1(ks[0]) {
                assert(all[j] == rest[j]);
            } else if j > 0 {
                assert(all[j] == rest[j - 1]);
            }
        }
    }
}

proof fn lemma_builtin_pass_has(bs: Seq<BuiltinAdapter>, m: Map<Seq<char>, AgentEntry>, seen: Set<Seq<char>>, k: Seq<char>)
    requires
        builtin_keys(bs).contains(k),
        !seen.contains(k),
        m.contains_key(k),
    ensures
        builtin_pass(bs, m, seen).contains(AdapterSource::Entry(k, m[k])),
    decreases bs.len(),
{
    let i = choose|i: int| 0 <= i < bs.len() && #[trigger] bs[i].key@ == k;
    let all = builtin_pass(bs, m, seen);
    if bs[0].key@ == k {
        assert(all[0] == AdapterSource::Entry(k, m[k]));
    } else {
        let t = bs.drop_first();
        let k0 = bs[0].key@;
        let seen2 = if seen.contains(k0) { seen } else { seen.insert(k0) };
        assert(t[i - 1].key@ == k);
        lemma_builtin_pass_has(t, m, seen2, k);
        let rest = builtin_pass(t, m, seen2);
        let j = choose|j: int| 0 <= j < rest.len() && rest[j] == AdapterSource::Entry(k, m[k]);
        if seen.contains(k0) {
            assert(all[j] == rest[j]);
        } else {
            assert(all[j + 1] == rest[j]);
        }
    }
}

proof fn lemma_entry_pass_has(ks: Seq<Seq<char>>, m: Map<Seq<char>, AgentEntry>, seen: Set<Seq<char>>, k: Seq<char>)
    requires
        ks.contains(k),
        !seen.contains(k),
        !is_tier1(k),
    ensures
        entry_pass(ks, m, seen).contains(AdapterSource::Entry(k, m[k])),
    decreases ks.len(),
{
    let all = entry_pass(ks, m, seen);
    if ks[0] == k {
        assert(all[0] == AdapterSource::Entry(k, m[k]));
    } else {
        let t = ks.drop_first();
        let i = choose|i: int| 0 <= i < ks.len() && ks[i] == k;
        assert(t[i - 1] == k);
        lemma_entry_pass_has(t, m, seen, k);
        let rest = entry_pass(t, m, seen);
        let j = choose|j: int| 0 <= j < rest.len() && rest[j] == AdapterSource::Entry(k, m[k]);
        if seen.contains(ks[0]) || is_tier1(ks[0]) {
            assert(all[j] == rest[j]);
        } else {
            assert(all[j + 1] == rest[j]);
        }
    }
}

/// Tier1 always wins: every Tier1 built-in resolves from the built-in
/// table, and no registry entry under a Tier1 key is ever resolved.
pub proof fn law_tier1_builtin_wins(registry: AgentRegistry, builtins: Seq<BuiltinAdapter>)
    requires
        registry.wf(),
    ensures
        forall|i: int| 0 <= i < builtins.len() && is_tier1(builtins[i].key@)
            ==> resolution(builtins, registry@).contains(AdapterSource::Builtin(#[trigger] builtins[i])),
        forall|j: int| 0 <= j < resolution(builtins, registry@).len()
            ==> !is_tier1_entry(#[trigger] resolution(builtins, registry@)[j]),
{
    let m = registry@;
    let a = tier1_pass(builtins);
    let b = builtin_pass(builtins, m, tier1_builtin_keys(builtins));
    let c = entry_pass(sorted_keys(m.dom()), m, builtin_keys(builtins));
    let all = resolution(builtins, m);
    assert(all == a + b + c);
    lemma_tier1_pass(builtins);
    assert forall|i: int| 0 <= i < builtins.len() && is_tier1(#[trigger] builtins[i].key@)
        implies tier1_builtin_keys(builtins).contains(builtins[i].key@) by {
    }
    lemma_builtin_pass_no_tier1(builtins, m, tier1_builtin_keys(builtins));
    lemma_entry_pass_no_tier1(sorted_keys(m.dom()), m, builtin_keys(builtins));
    assert forall|i: int| 0 <= i < builtins.len() && is_tier1(builtins[i].key@)
        implies all.contains(AdapterSource::Builtin(#[trigger] builtins[i])) by {
        let j = choose|j: int| 0 <= j < a.len() && a[j] == AdapterSource::Builtin(builtins[i]);
        assert(all[j] == a[j]);
    }
    assert forall|j: int| 0 <= j < all.len() implies !is_tier1_entry(#[trigger] all[j]) by {
        if j < a.len() {
            assert(all[j] == a[j]);
        } else if j < a.len() + b.len() {
            assert(all[j] == b[j - a.len()]);
        } else {
            assert(all[j] == c[j - a.len() - b.len()]);
        }
    }
}

/// No registry entry outside Tier1 is dropped: each one resolves, whether
/// its key is a built-in or not.
pub proof fn law_registry_entries_resolve(registry: AgentRegistry, builtins: Seq<BuiltinAdapter>, key: Seq<char>)
    requires
        registry.wf(),
        registry@.contains_key(key),
        !is_tier1(key),
    ensures
        resolution(builtins, registry@).contains(AdapterSource::Entry(key, registry@[key])),
{
    let m = registry@;
    let a = tier1_pass(builtins);
    let b = builtin_pass(builtins, m, tier1_builtin_keys(builtins));
    let c = entry_pass(sorted_keys(m.dom()), m, builtin_keys(builtins));
    let all = resolution(builtins, m);
    assert(all == a + b + c);
    let target = AdapterSource::Entry(key, m[key]);
    if builtin_keys(builtins).contains(key) {
        lemma_builtin_pass_has(builtins, m, tier1_builtin_keys(builtins), key);
        let j = choose|j: int| 0 <= j < b.len() && b[j] == target;
        assert(all[a.len() + j] == b[j]);
    } else {
        registry.adapters.lemma_sorted_keys();
        registry.adapters.lemma_view();
        lemma_entry_pass_has(sorted_keys(m.dom()), m, builtin_keys(builtins), key);
        let j = choose|j: int| 0 <= j < c.len() && c[j] == target;
        assert(all[a.len() + b.len() + j] == c[j]);
    }
}

/// Adding a custom agent and then removing it gives back the registry it
/// started from; in between, the new entry can be updated.
pub proof fn law_add_update_remove(m: Map<Seq<char>, AgentEntry>, key: Seq<char>, entry: AgentEntry, next: AgentEntry)
    requires
        spec_add(m, key, entry) is Ok,
    ensures
        spec_remove(spec_add(m, key, entry)->Ok_0, key) == Ok::<Map<Seq<char>, AgentEntry>, RegistryErrorKind>(m),
        spec_update(spec_add(m, key, entry)->Ok_0, key, next)
            == Ok::<Map<Seq<char>, AgentEntry>, RegistryErrorKind>(m.insert(key, as_custom(next))),
{
    let m2 = m.insert(key, as_custom(entry));
    assert(m2.remove(key) =~= m);
    assert(m2.insert(key, as_custom(next)) =~= m.insert(key, as_custom(next)));
}

/// Vendored (non-custom) entries are never changed or removed, and a
/// successful edit leaves every other key as it was.
pub proof fn law_edits_touch_one_custom_key(m: Map<Seq<char>, AgentEntry>, key: Seq<char>, entry: AgentEntry, other: Seq<char>)
    requires
        other != key,
    ensures
        m.contains_key(key) && !m[key].custom ==> spec_add(m, key, entry) is Err && spec_update(m, key, entry) is Err
            && spec_remove(m, key) is Err,
        spec_add(m, key, entry) matches Ok(m2) ==> (m2.contains_key(other) == m.contains_key(other) && m2[other] == m[other]),
        spec_update(m, key, entry) matches Ok(m2) ==> (m2.contains_key(other) == m.contains_key(other) && m2[other] == m[other]),
        spec_remove(m, key) matches Ok(m2) ==> (m2.contains_key(other) == m.contains_key(other) && m2[other] == m[other]),
{
}

} // verus!
