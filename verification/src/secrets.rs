//! Secret resolution for basin-carried configs.
//!
//! The basin only ever carries `${secret:name}` placeholders; real values
//! live machine-local. Resolution order: the OS keychain first, then the
//! machine's `secrets.env` file, and anything still unresolved is reported,
//! never invented. A keychain that could not be consulted is reported apart
//! from a secret that is simply absent.
//!
//! This module only answers "can this machine satisfy that secret?"; it
//! never writes resolved values anywhere.

use vstd::prelude::*;
use crate::strmap::StrMap;
use crate::text::{
    CharClass, trim, chars_of, trimmed, slice_vec, string_of, find_chars, find_from, has_at, matches_at,
    contains_str, lemma_find_from_bounds, is_space, lemma_trim_by_fixed, lemma_find_from_first, lemma_find_char_none,
};

verus! {

/// Where a secret's value came from.
#[derive(Debug, Clone, Copy, PartialEq, Eq)]
pub enum SecretSource {
    Keychain,
    EnvFile,
}

/// Outcome of a keychain lookup. "Not stored" and "could not ask" are
/// different facts and are kept apart.
#[derive(Debug, Clone, PartialEq, Eq)]
pub enum SecretLookup {
    Found(String),
    /// The store answered, and there is no such entry.
    Absent,
    /// The store could not be consulted (locked, no backend, ...).
    Unavailable(String),
}

/// A credential store that can be asked for a secret by name.
pub trait SecretStore {
    /// `r` is an answer the store may give when asked for `name`. A store
    /// that says nothing of its answers may give any.
    open spec fn answers(&self, name: Seq<char>, r: LookupView) -> bool {
        true
    }

    /// Asks the store for `name`.
    fn get(&self, name: &str) -> (r: SecretLookup)
        ensures
            self.answers(name@, r.view()),
    ;
}

/// Keychain service name under which SkillBasin's secrets are stored.
pub const KEYCHAIN_SERVICE: &'static str = "skillbasin";

#[verifier::external_type_specification]
#[verifier::external_body]
pub struct ExKeyringEntry(keyring::Entry);

/// What the OS keychain said when asked for a password, as plain values.
#[derive(Debug, Clone, PartialEq, Eq)]
pub enum KeychainReply {
    /// The stored password.
    Password(String),
    /// The store answered that there is no such entry.
    NoEntry,
    /// The store could not be asked; its error text.
    Failed(String),
}

/// The reply as plain values.
pub enum ReplyView {
    Password(Seq<char>),
    NoEntry,
    Failed(Seq<char>),
}

impl KeychainReply {
    pub open spec fn view(&self) -> ReplyView {
        match self {
            KeychainReply::Password(p) => ReplyView::Password(p@),
            KeychainReply::NoEntry => ReplyView::NoEntry,
            KeychainReply::Failed(t) => ReplyView::Failed(t@),
        }
    }
}

/// The lookup answer a keychain reply gives: a password is found, a missing
/// entry is absent, and any other failure leaves the secret unavailable
/// with the store's reason.
pub open spec fn lookup_of_reply(r: ReplyView) -> LookupView {
    match r {
        ReplyView::Password(p) => LookupView::Found(p),
        ReplyView::NoEntry => LookupView::Absent,
        ReplyView::Failed(t) => LookupView::Unavailable(t),
    }
}

/// The lookup answer for a keychain reply (see [`lookup_of_reply`]).
pub fn lookup_from(reply: KeychainReply) -> (r: SecretLookup)
    ensures
        r.view() == lookup_of_reply(reply.view()),
{
    match reply {
        KeychainReply::Password(p) => SecretLookup::Found(p),
        KeychainReply::NoEntry => SecretLookup::Absent,
        KeychainReply::Failed(t) => SecretLookup::Unavailable(t),
    }
}

/// Calls `keyring::Entry::new`; whether the platform store hands out an
/// entry depends on the machine, so nothing is claimed of the result. An
/// error is turned into its `Display` text.
#[verifier::external_body]
fn keyring_entry(service: &str, user: &str) -> Result<keyring::Entry, String> {
    keyring::Entry::new(service, user).map_err(|e| e.to_string())
}

/// Calls `keyring::Entry::get_password` and tells its outcomes apart: the
/// password, the `keyring::Error::NoEntry` error, or any other error with
/// its `Display` text. What the store holds is the machine's, so nothing is
/// claimed of which outcome comes back.
#[verifier::external_body]
fn keyring_password(entry: &keyring::Entry) -> KeychainReply {
    match entry.get_password() {
        Ok(p) => KeychainReply::Password(p),
        Err(keyring::Error::NoEntry) => KeychainReply::NoEntry,
        Err(e) => KeychainReply::Failed(e.to_string()),
    }
}

/// The OS keychain (Windows Credential Manager, macOS Keychain, Secret
/// Service), scoped to the `skillbasin` service.
pub struct OsKeychain;

impl SecretStore for OsKeychain {
    /// Every answer is what some reply of the store gives.
    open spec fn answers(&self, name: Seq<char>, r: LookupView) -> bool {
        exists|reply: ReplyView| r == lookup_of_reply(reply)
    }

    /// Asks the store for the entry (`KEYCHAIN_SERVICE`, `name`): found when
    /// the store gives a password, absent when it reports no such entry,
    /// unavailable with the store's reason otherwise.
    fn get(&self, name: &str) -> (r: SecretLookup) {
        let reply = match keyring_entry(KEYCHAIN_SERVICE, name) {
            Ok(entry) => keyring_password(&entry),
            Err(text) => KeychainReply::Failed(text),
        };
        let r = lookup_from(reply);
        assert(lookup_of_reply(reply.view()) == r.view());
        r
    }
}

/// The resolution of a list of secret names.
#[derive(Debug)]
pub struct SecretResolution {
    pub resolved: StrMap<String>,
    pub sources: StrMap<SecretSource>,
    /// Names nothing could satisfy.
    pub missing: Vec<String>,
    /// Names whose keychain lookup could not be performed at all, with why.
    pub unavailable: StrMap<String>,
}

/// A resolution as plain values.
pub struct ResolutionView {
    pub resolved: Map<Seq<char>, Seq<char>>,
    pub sources: Map<Seq<char>, SecretSource>,
    pub missing: Seq<Seq<char>>,
    pub unavailable: Map<Seq<char>, Seq<char>>,
}

impl SecretResolution {
    pub open spec fn wf(&self) -> bool {
        self.resolved.wf() && self.sources.wf() && self.unavailable.wf()
    }

    pub open spec fn view(&self) -> ResolutionView {
        ResolutionView {
            resolved: self.resolved.view().map_values(|v: String| v@),
            sources: self.sources.view(),
            missing: self.missing@.map_values(|s: String| s@),
            unavailable: self.unavailable.view().map_values(|v: String| v@),
        }
    }
}

/// A lookup answer as plain values.
pub enum LookupView {
    Found(Seq<char>),
    Absent,
    Unavailable(Seq<char>),
}

impl SecretLookup {
    pub open spec fn view(&self) -> LookupView {
        match self {
            SecretLookup::Found(v) => LookupView::Found(v@),
            SecretLookup::Absent => LookupView::Absent,
            SecretLookup::Unavailable(r) => LookupView::Unavailable(r@),
        }
    }
}

/// One name resolved: a keychain value wins; otherwise the env file's value;
/// otherwise the name is unavailable (when the keychain could not be asked)
/// or missing.
pub open spec fn resolve_step(r: ResolutionView, name: Seq<char>, lookup: LookupView, env: Map<Seq<char>, Seq<char>>) -> ResolutionView {
    match lookup {
        LookupView::Found(v) => ResolutionView {
            resolved: r.resolved.insert(name, v),
            sources: r.sources.insert(name, SecretSource::Keychain),
            ..r
        },
        _ => if env.contains_key(name) {
            ResolutionView {
                resolved: r.resolved.insert(name, env[name]),
                sources: r.sources.insert(name, SecretSource::EnvFile),
                ..r
            }
        } else {
            match lookup {
                LookupView::Unavailable(why) => ResolutionView { unavailable: r.unavailable.insert(name, why), ..r },
                _ => ResolutionView { missing: r.missing.push(name), ..r },
            }
        },
    }
}

pub open spec fn empty_resolution() -> ResolutionView {
    ResolutionView { resolved: Map::empty(), sources: Map::empty(), missing: Seq::empty(), unavailable: Map::empty() }
}

/// The names resolved in order against their keychain answers and `env`.
pub open spec fn spec_resolve(names: Seq<Seq<char>>, lookups: Seq<LookupView>, env: Map<Seq<char>, Seq<char>>) -> ResolutionView
    decreases names.len(),
{
    if names.len() == 0 || lookups.len() == 0 {
        empty_resolution()
    } else {
        resolve_step(
            spec_resolve(names.drop_last(), lookups.drop_last(), env),
            names.last(),
            lookups.last(),
            env,
        )
    }
}

/// Resolves `names` given the keychain's answer for each (`lookups[i]` is
/// the answer for `names[i]`) and the env file's entries.
pub fn resolve_with_lookups(names: &Vec<String>, lookups: &Vec<SecretLookup>, env: &StrMap<String>) -> (out: SecretResolution)
    requires
        names@.len() == lookups@.len(),
        env.wf(),
    ensures
        out.wf(),
        out.view() == spec_resolve(
            names@.map_values(|s: String| s@),
            lookups@.map_values(|l: SecretLookup| l.view()),
            env.view().map_values(|v: String| v@),
        ),
{
    let ghost ns = names@.map_values(|s: String| s@);
    let ghost ls = lookups@.map_values(|l: SecretLookup| l.view());
    let ghost ev = env.view().map_values(|v: String| v@);
    let mut out = SecretResolution {
        resolved: StrMap::new(),
        sources: StrMap::new(),
        missing: Vec::new(),
        unavailable: StrMap::new(),
    };
    assert(out.view().resolved =~= Map::<Seq<char>, Seq<char>>::empty());
    assert(out.view().unavailable =~= Map::<Seq<char>, Seq<char>>::empty());
    assert(out.view().missing =~= Seq::<Seq<char>>::empty());
    let mut i: usize = 0;
    while i < names.len()
        invariant
            names@.len() == lookups@.len(),
            env.wf(),
            out.wf(),
            ns == names@.map_values(|s: String| s@),
            ls == lookups@.map_values(|l: SecretLookup| l.view()),
            ev == env.view().map_values(|v: String| v@),
            i <= names@.len(),
            out.view() == spec_resolve(ns.take(i as int), ls.take(i as int), ev),
        decreases names.len() - i,
    {
        let name = &names[i];
        assert(ns.take(i + 1).drop_last() == ns.take(i as int));
        assert(ls.take(i + 1).drop_last() == ls.take(i as int));
        assert(ns.take(i + 1).last() == name@);
        assert(ls.take(i + 1).last() == lookups[i as int].view());
        let ghost before = out.view();
        let ghost want = resolve_step(before, name@, lookups[i as int].view(), ev);
        match &lookups[i] {
            SecretLookup::Found(v) => {
                out.resolved.insert(name.clone(), v.clone());
                out.sources.insert(name.clone(), SecretSource::Keychain);
                assert(out.view().resolved =~= want.resolved);
            },
            other => {
                match env.get(name.as_str()) {
                    Some(v) => {
                        assert(ev.contains_key(name@));
                        out.resolved.insert(name.clone(), v.clone());
                        out.sources.insert(name.clone(), SecretSource::EnvFile);
                        assert(out.view().resolved =~= want.resolved);
                    },
                    None => {
                        assert(!ev.contains_key(name@));
                        match other {
                            SecretLookup::Unavailable(why) => {
                                out.unavailable.insert(name.clone(), why.clone());
                                assert(out.view().unavailable =~= want.unavailable);
                            },
                            _ => {
                                out.missing.push(name.clone());
                                assert(out.view().missing =~= want.missing);
                            },
                        }
                    },
                }
            },
        }
        i = i + 1;
    }
    assert(ns.take(names@.len() as int) == ns);
    assert(ls.take(names@.len() as int) == ls);
    out
}

pub open spec fn strs_view(v: Seq<String>) -> Seq<Seq<char>> {
    v.map_values(|s: String| s@)
}

/// The env file entries as plain values; none without an env file.
pub open spec fn env_view(env: Option<&StrMap<String>>) -> Map<Seq<char>, Seq<char>> {
    match env {
        Some(e) => e.view().map_values(|v: String| v@),
        None => Map::empty(),
    }
}

/// Resolves `names` against `keychain` first, then the env file entries
/// (`env`, when there is an env file).
pub fn resolve_secrets<K: SecretStore + ?Sized>(names: &Vec<String>, keychain: &K, env: Option<&StrMap<String>>) -> (out: SecretResolution)
    requires
        env matches Some(e) ==> e.wf(),
    ensures
        out.wf(),
        exists|ls: Seq<LookupView>|
            {
                &&& ls.len() == names@.len()
                &&& forall|i: int| 0 <= i < ls.len() ==> keychain.answers(names@[i]@, #[trigger] ls[i])
                &&& out.view() == #[trigger] spec_resolve(strs_view(names@), ls, env_view(env))
            },
{
    let mut lookups: Vec<SecretLookup> = Vec::new();
    let mut i: usize = 0;
    while i < names.len()
        invariant
            i <= names@.len(),
            lookups@.len() == i,
            forall|j: int| 0 <= j < i ==> keychain.answers(names@[j]@, #[trigger] lookups@[j].view()),
        decreases names.len() - i,
    {
        let l = keychain.get(names[i].as_str());
        lookups.push(l);
        i = i + 1;
    }
    let no_env: StrMap<String> = StrMap::new();
    let e = match env {
        Some(e) => e,
        None => &no_env,
    };
    assert(no_env.view().map_values(|v: String| v@) =~= Map::<Seq<char>, Seq<char>>::empty());
    let out = resolve_with_lookups(names, &lookups, e);
    let ghost ls = lookups@.map_values(|l: SecretLookup| l.view());
    assert(ls.len() == names@.len());
    assert(forall|j: int| 0 <= j < ls.len() ==> keychain.answers(names@[j]@, #[trigger] ls[j]));
    assert(out.view() == spec_resolve(strs_view(names@), ls, env_view(env)));
    out
}

/// What resolution says of one name: a keychain value wins; otherwise the
/// env file's value; otherwise the name is unavailable (when the keychain
/// could not be asked) or missing.
pub open spec fn outcome_for(r: ResolutionView, name: Seq<char>, lookup: LookupView, env: Map<Seq<char>, Seq<char>>) -> bool {
    match lookup {
        LookupView::Found(v) => {
            &&& r.resolved.contains_key(name) && r.resolved[name] == v
            &&& r.sources.contains_key(name) && r.sources[name] == SecretSource::Keychain
            &&& !r.missing.contains(name) && !r.unavailable.contains_key(name)
        },
        _ => if env.contains_key(name) {
            &&& r.resolved.contains_key(name) && r.resolved[name] == env[name]
            &&& r.sources.contains_key(name) && r.sources[name] == SecretSource::EnvFile
            &&& !r.missing.contains(name) && !r.unavailable.contains_key(name)
        } else {
            &&& !r.resolved.contains_key(name) && !r.sources.contains_key(name)
            &&& match lookup {
                LookupView::Unavailable(why) => r.unavailable.contains_key(name) && r.unavailable[name] == why
                    && !r.missing.contains(name),
                _ => r.missing.contains(name) && !r.unavailable.contains_key(name),
            }
        },
    }
}

/// Only asked-for names appear in a resolution.
pub open spec fn only_names(r: ResolutionView, names: Seq<Seq<char>>) -> bool {
    &&& forall|n: Seq<char>| #[trigger] r.resolved.contains_key(n) ==> names.contains(n)
    &&& forall|n: Seq<char>| #[trigger] r.sources.contains_key(n) ==> names.contains(n)
    &&& forall|n: Seq<char>| #[trigger] r.unavailable.contains_key(n) ==> names.contains(n)
    &&& forall|i: int| 0 <= i < r.missing.len() ==> names.contains(#[trigger] r.missing[i])
}

/// Nothing is invented: every name in a resolution was asked for; and each
/// name asked for (once) comes out as `outcome_for` says, from its own
/// keychain answer and the env file.
pub proof fn law_resolution_accounts_for_every_name(
    names: Seq<Seq<char>>,
    lookups: Seq<LookupView>,
    env: Map<Seq<char>, Seq<char>>,
)
    requires
        lookups.len() == names.len(),
    ensures
        only_names(spec_resolve(names, lookups, env), names),
        names.no_duplicates() ==> forall|i: int| 0 <= i < names.len()
            ==> outcome_for(spec_resolve(names, lookups, env), #[trigger] names[i], lookups[i], env),
    decreases names.len(),
{
    if names.len() > 0 {
        let pn = names.drop_last();
        let pl = lookups.drop_last();
        law_resolution_accounts_for_every_name(pn, pl, env);
        let prev = spec_resolve(pn, pl, env);
        let r = spec_resolve(names, lookups, env);
        let last = names.last();
        assert(r == resolve_step(prev, last, lookups.last(), env));
        assert(names.contains(last)) by {
            assert(names[names.len() - 1] == last);
        }
        assert forall|n: Seq<char>| pn.contains(n) implies names.contains(n) by {
            let j = choose|j: int| 0 <= j < pn.len() && pn[j] == n;
            assert(names[j] == n);
        }
        assert(only_names(r, names)) by {
            assert forall|i: int| 0 <= i < r.missing.len() implies names.contains(#[trigger] r.missing[i]) by {
                if i < prev.missing.len() {
                    assert(r.missing[i] == prev.missing[i] || r.missing[i] == prev.missing.push(last)[i]);
                }
            }
        }
        if names.no_duplicates() {
            assert(pn.no_duplicates());
            assert(!pn.contains(last)) by {
                if pn.contains(last) {
                    let j = choose|j: int| 0 <= j < pn.len() && pn[j] == last;
                    assert(names[j] == names[names.len() - 1]);
                }
            }
            assert(!prev.resolved.contains_key(last) && !prev.sources.contains_key(last) && !prev.unavailable.contains_key(last));
            assert(!prev.missing.contains(last)) by {
                if prev.missing.contains(last) {
                    let j = choose|j: int| 0 <= j < prev.missing.len() && prev.missing[j] == last;
                }
            }
            assert forall|i: int| 0 <= i < names.len() implies outcome_for(r, #[trigger] names[i], lookups[i], env) by {
                if i < names.len() - 1 {
                    let n = names[i];
                    assert(pn[i] == n && pl[i] == lookups[i]);
                    assert(outcome_for(prev, pn[i], pl[i], env));
                    assert(n != last);
                    if r.missing.contains(n) && !prev.missing.contains(n) {
                        let j = choose|j: int| 0 <= j < r.missing.len() && r.missing[j] == n;
                        assert(j < prev.missing.len() ==> r.missing[j] == prev.missing[j]);
                    }
                    if prev.missing.contains(n) {
                        let j = choose|j: int| 0 <= j < prev.missing.len() && prev.missing[j] == n;
                        assert(r.missing.len() >= prev.missing.len());
                        assert(r.missing[j] == prev.missing[j]);
                    }
                } else {
                    assert(names[i] == last && lookups[i] == lookups.last());
                    if r.missing.contains(last) && !(r.missing.len() > prev.missing.len()) {
                        let j = choose|j: int| 0 <= j < r.missing.len() && r.missing[j] == last;
                        assert(r.missing[j] == prev.missing[j]);
                    }
                    if r.missing.len() > prev.missing.len() {
                        assert(r.missing[prev.missing.len() as int] == last);
                    }
                }
            }
        }
    }
}

/// `${secret:`
pub open spec fn secret_open() -> Seq<char> {
    seq!['$', '{', 's', 'e', 'c', 'r', 'e', 't', ':']
}

/// The secret names referenced from position `pos` on, appended to `acc`:
/// each `${secret:` up to the next `}` names a secret (trimmed); blank
/// names and names already listed are skipped; an unclosed reference ends
/// the scan.
pub open spec fn refs_scan(s: Seq<char>, pos: int, acc: Seq<Seq<char>>) -> Seq<Seq<char>>
    decreases s.len() + 1 - pos,
{
    if pos < 0 {
        acc
    } else {
        match find_from(s, secret_open(), pos) {
            None => acc,
            Some(a) => match find_from(s, seq!['}'], a + 9) {
                None => acc,
                Some(e) => {
                    proof {
                        lemma_find_from_bounds(s, secret_open(), pos);
                        lemma_find_from_bounds(s, seq!['}'], a + 9);
                    }
                    let name = trim(s.subrange(a + 9, e));
                    let acc2 = if name.len() > 0 && !acc.contains(name) {
                        acc.push(name)
                    } else {
                        acc
                    };
                    refs_scan(s, e + 1, acc2)
                },
            },
        }
    }
}

proof fn lemma_refs_scan_clean(s: Seq<char>, pos: int, acc: Seq<Seq<char>>)
    requires
        acc.no_duplicates(),
        forall|i: int| 0 <= i < acc.len() ==> (#[trigger] acc[i]).len() > 0,
    ensures
        refs_scan(s, pos, acc).no_duplicates(),
        forall|i: int| 0 <= i < refs_scan(s, pos, acc).len() ==> (#[trigger] refs_scan(s, pos, acc)[i]).len() > 0,
    decreases s.len() + 1 - pos,
{
    if pos >= 0 {
        match find_from(s, secret_open(), pos) {
            None => {},
            Some(a) => match find_from(s, seq!['}'], a + 9) {
                None => {},
                Some(e) => {
                    lemma_find_from_bounds(s, secret_open(), pos);
                    lemma_find_from_bounds(s, seq!['}'], a + 9);
                    let name = trim(s.subrange(a + 9, e));
                    if name.len() > 0 && !acc.contains(name) {
                        let acc2 = acc.push(name);
                        assert(acc2.no_duplicates()) by {
                            assert forall|i: int, j: int| 0 <= i < acc2.len() && 0 <= j < acc2.len() && i != j implies acc2[i] != acc2[j] by {
                                if i < acc.len() && j < acc.len() {
                                } else if i < acc.len() {
                                    assert(acc.contains(acc[i]));
                                } else {
                                    assert(acc.contains(acc[j]));
                                }
                            }
                        }
                        lemma_refs_scan_clean(s, e + 1, acc2);
                    } else {
                        lemma_refs_scan_clean(s, e + 1, acc);
                    }
                },
            },
        }
    }
}

/// Every referenced secret name is listed once, and none is blank.
pub proof fn law_refs_unique_and_named(text: Seq<char>)
    ensures
        refs_scan(text, 0, Seq::empty()).no_duplicates(),
        forall|i: int| 0 <= i < refs_scan(text, 0, Seq::empty()).len() ==> (#[trigger] refs_scan(text, 0, Seq::empty())[i]).len() > 0,
{
    lemma_refs_scan_clean(text, 0, Seq::empty());
}

/// Every `${secret:name}` reference in a config body, first occurrence
/// first, each name once.
pub fn extract_secret_refs(text: &str) -> (out: Vec<String>)
    ensures
        out@.map_values(|s: String| s@) == refs_scan(text@, 0, Seq::empty()),
{
    let v = chars_of(text);
    let open: Vec<char> = vec!['$', '{', 's', 'e', 'c', 'r', 'e', 't', ':'];
    let close: Vec<char> = vec!['}'];
    assert(open@ == secret_open());
    assert(close@ == seq!['}']);
    let mut out: Vec<String> = Vec::new();
    assert(out@.map_values(|s: String| s@) =~= Seq::<Seq<char>>::empty());
    let mut pos: usize = 0;
    loop
        invariant
            v@ == text@,
            open@ == secret_open(),
            close@ == seq!['}'],
            pos <= v@.len(),
            refs_scan(v@, pos as int, out@.map_values(|s: String| s@)) == refs_scan(v@, 0, Seq::empty()),
        decreases v@.len() - pos,
    {
        let ghost acc = out@.map_values(|s: String| s@);
        let a = match find_chars(&v, &open, pos) {
            Some(a) => a,
            None => {
                return out;
            },
        };
        proof {
            lemma_find_from_bounds(v@, open@, pos as int);
            assert(open@.len() == 9);
            assert(has_at(v@, a as int, open@));
        }
        assert(a + 9 <= v.len());
        let b = a + 9;
        let e = match find_chars(&v, &close, b) {
            Some(e) => e,
            None => {
                return out;
            },
        };
        proof {
            lemma_find_from_bounds(v@, close@, b as int);
            assert(close@.len() == 1);
            assert(has_at(v@, e as int, close@));
        }
        assert(e + 1 <= v.len());
        let raw = slice_vec(&v, b, e);
        let name = trimmed(&raw, CharClass::Space);
        let ns = string_of(&name);
        if name.len() > 0 && !contains_str(&out, ns.as_str()) {
            out.push(ns);
            assert(out@.map_values(|s: String| s@) =~= acc.push(name@));
        }
        pos = e + 1;
    }
}

/// `v` without one pair of matching surrounding quotes.
pub open spec fn unquote(v: Seq<char>) -> Seq<char> {
    if v.len() >= 2 && ((v[0] == '"' && v.last() == '"') || (v[0] == '\'' && v.last() == '\'')) {
        v.subrange(1, v.len() - 1)
    } else {
        v
    }
}

/// `export `
pub open spec fn export_prefix() -> Seq<char> {
    seq!['e', 'x', 'p', 'o', 'r', 't', ' ']
}

/// One env-file line applied to the entries read so far: blank lines and
/// `#` comments are skipped; an `export ` prefix is ignored; `KEY=value`
/// (split at the first `=`, both sides trimmed, the value unquoted) sets
/// the key; a line without `=` is ignored.
pub open spec fn env_line(m: Map<Seq<char>, Seq<char>>, line: Seq<char>) -> Map<Seq<char>, Seq<char>> {
    let l = trim(line);
    if l.len() == 0 || l[0] == '#' {
        m
    } else {
        let l2 = if has_at(l, 0, export_prefix()) { l.subrange(7, l.len() as int) } else { l };
        match find_from(l2, seq!['='], 0) {
            None => m,
            Some(i) => m.insert(trim(l2.subrange(0, i)), unquote(trim(l2.subrange(i + 1, l2.len() as int)))),
        }
    }
}

/// A `KEY=value` line sets the key, trimmed, to everything after the first
/// `=`, trimmed and unquoted, whatever `=` characters that holds; a value
/// without surrounding blanks or quotes is kept exactly (`K=a=b` sets `K`
/// to `a=b`).
pub proof fn law_env_value_is_the_rest_of_the_line(m: Map<Seq<char>, Seq<char>>, k: Seq<char>, v: Seq<char>)
    requires
        k.len() > 0,
        !is_space(k[0]),
        k[0] != '#',
        !has_at(k, 0, export_prefix()),
        !k.contains('='),
        v.len() > 0 ==> !is_space(v.last()),
    ensures
        env_line(m, k + seq!['='] + v) == m.insert(trim(k), unquote(trim(v))),
        v.len() == 0 || (!is_space(v[0]) && v[0] != '"' && v[0] != '\'') ==> env_line(m, k + seq!['='] + v)
            == m.insert(trim(k), v),
        v.len() >= 2 && ((v[0] == '"' && v.last() == '"') || (v[0] == '\'' && v.last() == '\'')) ==> env_line(
            m,
            k + seq!['='] + v,
        ) == m.insert(trim(k), v.subrange(1, v.len() - 1)),
{
    let line = k + seq!['='] + v;
    let n = k.len() as int;
    assert(line[0] == k[0]);
    if v.len() > 0 {
        assert(line.last() == v.last());
    } else {
        assert(line.last() == '=');
    }
    lemma_trim_by_fixed(line, CharClass::Space);
    assert(trim(line) == line);
    assert(!has_at(line, 0, export_prefix())) by {
        if has_at(line, 0, export_prefix()) {
            if n >= 7 {
                assert(k.subrange(0, 7) =~= line.subrange(0, 7));
            } else {
                assert(line.subrange(0, 7)[n] == line[n]);
                assert(line[n] == '=');
                assert(export_prefix()[n] != '=');
            }
        }
    }
    assert(has_at(line, n, seq!['='])) by {
        assert(line.subrange(n, n + 1) =~= seq!['=']);
    }
    assert forall|j: int| 0 <= j < n implies !has_at(line, j, seq!['=']) by {
        if has_at(line, j, seq!['=']) {
            assert(line.subrange(j, j + 1)[0] == line[j]);
            assert(line[j] == k[j]);
            assert(k.contains('='));
        }
    }
    lemma_find_from_first(line, seq!['='], 0, n);
    assert(line.subrange(0, n) =~= k);
    assert(line.subrange(n + 1, line.len() as int) =~= v);
    if v.len() >= 2 && ((v[0] == '"' && v.last() == '"') || (v[0] == '\'' && v.last() == '\'')) {
        lemma_trim_by_fixed(v, CharClass::Space);
    }
    if v.len() == 0 || (!is_space(v[0]) && v[0] != '"' && v[0] != '\'') {
        if v.len() > 0 {
            lemma_trim_by_fixed(v, CharClass::Space);
        } else {
            assert(trim(v) =~= v);
        }
    }
}

/// A line whose first non-blank character is `#` is a comment: it leaves
/// the entries as they are.
pub proof fn law_env_comment_lines_are_ignored(m: Map<Seq<char>, Seq<char>>, blank: Seq<char>, rest: Seq<char>)
    requires
        forall|i: int| 0 <= i < blank.len() ==> is_space(#[trigger] blank[i]),
    ensures
        env_line(m, blank + seq!['#'] + rest) == m,
{
    let line = blank + seq!['#'] + rest;
    let n = blank.len() as int;
    assert(line[n] == '#');
    assert forall|j: int| 0 <= j < n implies is_space(#[trigger] line[j]) by {
        assert(line[j] == blank[j]);
    }
    crate::text::lemma_trim_first_char(line, n);
}

/// A text of one `KEY=value` line (no line break, no byte-order mark)
/// parses to that one entry, the value being everything after the first
/// `=` (see [`law_env_value_is_the_rest_of_the_line`]).
pub proof fn law_env_text_of_one_line(k: Seq<char>, v: Seq<char>)
    requires
        k.len() > 0,
        !is_space(k[0]),
        k[0] != '#',
        k[0] != '\u{feff}',
        !has_at(k, 0, export_prefix()),
        !k.contains('='),
        !k.contains('\n'),
        !v.contains('\n'),
        v.len() > 0 ==> !is_space(v.last()),
    ensures
        env_scan(without_bom(k + seq!['='] + v), 0, Map::empty()) == Map::<Seq<char>, Seq<char>>::empty().insert(
            trim(k),
            unquote(trim(v)),
        ),
{
    let line = k + seq!['='] + v;
    assert(line[0] == k[0]);
    assert(without_bom(line) == line);
    assert(!line.contains('\n')) by {
        if line.contains('\n') {
            let j = choose|j: int| 0 <= j < line.len() && line[j] == '\n';
            if j < k.len() {
                assert(k[j] == '\n');
            } else if j > k.len() {
                assert(v[j - k.len() - 1] == '\n');
            }
        }
    }
    lemma_find_char_none(line, '\n', 0);
    assert(line.subrange(0, line.len() as int) =~= line);
    law_env_value_is_the_rest_of_the_line(Map::empty(), k, v);
}

/// The entries of the env text from position `pos` on, line by line.
pub open spec fn env_scan(s: Seq<char>, pos: int, m: Map<Seq<char>, Seq<char>>) -> Map<Seq<char>, Seq<char>>
    decreases s.len() + 1 - pos,
{
    if pos < 0 || pos > s.len() {
        m
    } else {
        match find_from(s, seq!['\n'], pos) {
            None => env_line(m, s.subrange(pos, s.len() as int)),
            Some(i) => {
                proof {
                    lemma_find_from_bounds(s, seq!['\n'], pos);
                }
                env_scan(s, i + 1, env_line(m, s.subrange(pos, i)))
            },
        }
    }
}

/// The text without a leading byte-order mark.
pub open spec fn without_bom(s: Seq<char>) -> Seq<char> {
    if s.len() > 0 && s[0] == '\u{feff}' {
        s.drop_first()
    } else {
        s
    }
}

/// Applies one line to the map being built.
fn apply_env_line(m: &mut StrMap<String>, line: &Vec<char>)
    requires
        old(m).wf(),
    ensures
        final(m).wf(),
        final(m).view().map_values(|v: String| v@) == env_line(old(m).view().map_values(|v: String| v@), line@),
{
    let ghost before = m.view().map_values(|v: String| v@);
    let l = trimmed(line, CharClass::Space);
    if l.len() == 0 || l[0] == '#' {
        return;
    }
    let export: Vec<char> = vec!['e', 'x', 'p', 'o', 'r', 't', ' '];
    assert(export@ == export_prefix());
    let l2 = if matches_at(&l, 0, &export) {
        slice_vec(&l, 7, l.len())
    } else {
        l
    };
    let eq: Vec<char> = vec!['='];
    assert(eq@ == seq!['=']);
    match find_chars(&l2, &eq, 0) {
        None => {},
        Some(i) => {
            proof {
                lemma_find_from_bounds(l2@, eq@, 0);
            }
            let k = slice_vec(&l2, 0, i);
            let key = trimmed(&k, CharClass::Space);
            let v = slice_vec(&l2, i + 1, l2.len());
            let val = trimmed(&v, CharClass::Space);
            let n = val.len();
            let unq = if n >= 2 && ((val[0] == '"' && val[n - 1] == '"') || (val[0] == '\'' && val[n - 1] == '\'')) {
                slice_vec(&val, 1, n - 1)
            } else {
                val
            };
            assert(unq@ == unquote(val@));
            m.insert(string_of(&key), string_of(&unq));
            assert(m.view().map_values(|v: String| v@) =~= before.insert(key@, unq@));
        },
    }
}

/// The entries of a dotenv-style text: `KEY=value` lines, `#` comments,
/// optional `export ` prefix, a leading byte-order mark tolerated; a later
/// line for the same key wins.
pub fn parse_env_text(text: &str) -> (env: StrMap<String>)
    ensures
        env.wf(),
        env.view().map_values(|v: String| v@) == env_scan(without_bom(text@), 0, Map::empty()),
{
    let raw = chars_of(text);
    let v = if raw.len() > 0 && raw[0] == '\u{feff}' {
        slice_vec(&raw, 1, raw.len())
    } else {
        raw
    };
    assert(v@ == without_bom(text@));
    let nl: Vec<char> = vec!['\n'];
    assert(nl@ == seq!['\n']);
    let mut m: StrMap<String> = StrMap::new();
    assert(m.view().map_values(|v: String| v@) =~= Map::<Seq<char>, Seq<char>>::empty());
    let mut pos: usize = 0;
    loop
        invariant
            v@ == without_bom(text@),
            nl@ == seq!['\n'],
            pos <= v@.len(),
            m.wf(),
            env_scan(v@, pos as int, m.view().map_values(|v: String| v@)) == env_scan(v@, 0, Map::empty()),
        decreases v@.len() - pos,
    {
        match find_chars(&v, &nl, pos) {
            None => {
                let line = slice_vec(&v, pos, v.len());
                apply_env_line(&mut m, &line);
                return m;
            },
            Some(i) => {
                proof {
                    lemma_find_from_bounds(v@, nl@, pos as int);
                    assert(has_at(v@, i as int, nl@));
                }
                assert(i + 1 <= v.len());
                let line = slice_vec(&v, pos, i);
                apply_env_line(&mut m, &line);
                pos = i + 1;
            },
        }
    }
}

} // verus!
