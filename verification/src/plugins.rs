//! Skills that an enabled agent plugin already provides.
//!
//! The agent also loads the skills bundled with its enabled plugins, so a
//! synced skill with the same name shows up twice. This module reads the
//! plugin settings (as plain values) and the `name` of each plugin skill's
//! SKILL.md, and says which plugin provides which name. Everything here is
//! best effort: what cannot be read shrinks the result, never fails it.

use vstd::prelude::*;
use crate::strmap::StrMap;
use crate::text::{CharClass, chars_of, trim, trim_by, trimmed, slice_vec, has_at, matches_at, find_from, find_chars, lemma_find_from_bounds, string_of};
use crate::secrets::without_bom;

verus! {

/// `---`
pub open spec fn fence() -> Seq<char> {
    seq!['-', '-', '-']
}

/// `name:`
pub open spec fn name_key() -> Seq<char> {
    seq!['n', 'a', 'm', 'e', ':']
}

/// The name a trimmed frontmatter line gives, if it gives a non-empty one:
/// after `name:`, trimmed, without surrounding quotes, trimmed again.
pub open spec fn name_on_line(t: Seq<char>) -> Option<Seq<char>> {
    if has_at(t, 0, name_key()) {
        let n = trim(trim_by(trim(t.subrange(5, t.len() as int)), CharClass::Quote));
        if n.len() > 0 {
            Some(n)
        } else {
            None
        }
    } else {
        None
    }
}

/// Scans the lines of `s` from `pos` on. Before the opening `---` fence,
/// blank lines are skipped and anything else means there is no
/// frontmatter; inside it, the closing fence ends the search and the
/// first line giving a name answers it.
pub open spec fn name_scan(s: Seq<char>, pos: int, opened: bool) -> Option<Seq<char>>
    decreases s.len() + 1 - pos,
{
    if pos < 0 || pos > s.len() {
        None
    } else {
        let found = find_from(s, seq!['\n'], pos);
        let end = match found {
            Some(i) => i,
            None => s.len() as int,
        };
        let t = trim(s.subrange(pos, end));
        if !opened && t.len() > 0 && t != fence() {
            None
        } else if opened && t == fence() {
            None
        } else if opened && name_on_line(t) is Some {
            name_on_line(t)
        } else {
            match found {
                None => None,
                Some(i) => {
                    proof {
                        lemma_find_from_bounds(s, seq!['\n'], pos);
                    }
                    name_scan(s, i + 1, opened || t == fence())
                },
            }
        }
    }
}

/// The `name` field of a SKILL.md's YAML frontmatter, if present.
pub open spec fn skill_name_of(text: Seq<char>) -> Option<Seq<char>> {
    name_scan(without_bom(text), 0, false)
}

/// The lines `ls`, each followed by a line break.
pub open spec fn joined_lines(ls: Seq<Seq<char>>) -> Seq<char>
    decreases ls.len(),
{
    if ls.len() == 0 {
        Seq::empty()
    } else {
        ls[0] + seq!['\n'] + joined_lines(ls.drop_first())
    }
}

/// The line that starts at `pos` in `s` is `line`, ended by a line break.
proof fn lemma_line_at(s: Seq<char>, pos: int, line: Seq<char>)
    requires
        0 <= pos,
        has_at(s, pos, line + seq!['\n']),
        !line.contains('\n'),
    ensures
        find_from(s, seq!['\n'], pos) == Some(pos + line.len()),
        s.subrange(pos, pos + line.len()) == line,
{
    let n = line.len() as int;
    let w = line + seq!['\n'];
    assert(s.subrange(pos, pos + n + 1) == w);
    assert(has_at(s, pos + n, seq!['\n'])) by {
        assert(s.subrange(pos + n, pos + n + 1) =~= seq!['\n']) by {
            assert(s[pos + n] == s.subrange(pos, pos + n + 1)[n]);
        }
    }
    assert forall|j: int| pos <= j < pos + n implies !has_at(s, j, seq!['\n']) by {
        if has_at(s, j, seq!['\n']) {
            assert(s.subrange(j, j + 1)[0] == s[j]);
            assert(s[j] == s.subrange(pos, pos + n + 1)[j - pos]);
            assert(line[j - pos] == '\n');
            assert(line.contains('\n'));
        }
    }
    crate::text::lemma_find_from_first(s, seq!['\n'], pos, pos + n);
    assert(s.subrange(pos, pos + n) =~= w.subrange(0, n));
    assert(w.subrange(0, n) =~= line);
}

/// Inside the frontmatter, lines that are neither the closing fence nor a
/// `name:` line are passed over.
proof fn lemma_skip_lines(s: Seq<char>, pos: int, ls: Seq<Seq<char>>)
    requires
        0 <= pos,
        has_at(s, pos, joined_lines(ls)),
        forall|i: int| 0 <= i < ls.len() ==> {
            &&& !(#[trigger] ls[i]).contains('\n')
            &&& trim(ls[i]) != fence()
            &&& !has_at(trim(ls[i]), 0, name_key())
        },
    ensures
        name_scan(s, pos, true) == name_scan(s, pos + joined_lines(ls).len(), true),
    decreases ls.len(),
{
    if ls.len() > 0 {
        let l0 = ls[0];
        let rest = ls.drop_first();
        let j = joined_lines(ls);
        assert(j == l0 + seq!['\n'] + joined_lines(rest));
        let w = l0 + seq!['\n'];
        assert(has_at(s, pos, w)) by {
            assert(s.subrange(pos, pos + w.len()) =~= j.subrange(0, w.len() as int));
            assert(j.subrange(0, w.len() as int) =~= w);
        }
        assert(!l0.contains('\n'));
        lemma_line_at(s, pos, l0);
        let next = pos + l0.len() + 1;
        assert(has_at(s, next, joined_lines(rest))) by {
            let jr = joined_lines(rest);
            assert(s.subrange(pos, pos + j.len()) == j);
            assert(j.subrange(w.len() as int, j.len() as int) =~= jr);
            assert forall|q: int| 0 <= q < jr.len() implies #[trigger] s.subrange(next, next + jr.len())[q] == jr[q] by {
                assert(s.subrange(next, next + jr.len())[q] == s[next + q]);
                assert(s[next + q] == s.subrange(pos, pos + j.len())[w.len() + q]);
                assert(j[w.len() + q] == jr[q]);
            }
            assert(s.subrange(next, next + jr.len()) =~= jr);
        }
        assert forall|i: int| 0 <= i < rest.len() implies {
            &&& !(#[trigger] rest[i]).contains('\n')
            &&& trim(rest[i]) != fence()
            &&& !has_at(trim(rest[i]), 0, name_key())
        } by {
            assert(rest[i] == ls[i + 1]);
        }
        lemma_skip_lines(s, next, rest);
        assert(trim(l0) != fence());
        assert(name_on_line(trim(l0)) is None);
    }
}

/// Opening fence: a text that begins with `---` and a line break opens the
/// frontmatter on the next line.
proof fn lemma_opening_fence(s: Seq<char>)
    requires
        has_at(s, 0, fence() + seq!['\n']),
    ensures
        name_scan(s, 0, false) == name_scan(s, 4, true),
{
    assert(!fence().contains('\n'));
    lemma_line_at(s, 0, fence());
    crate::text::lemma_trim_by_fixed(fence(), CharClass::Space);
    assert(trim(fence()) == fence());
}

/// A `name: <x>` line inside the frontmatter answers `<x>` when `<x>` has
/// no surrounding blanks or quotes.
proof fn lemma_name_line(s: Seq<char>, p: int, x: Seq<char>)
    requires
        0 <= p,
        has_at(s, p, name_key() + seq![' '] + x + seq!['\n']),
        x.len() > 0,
        !x.contains('\n'),
        !crate::text::is_space(x[0]) && x[0] != '"' && x[0] != '\'',
        !crate::text::is_space(x.last()) && x.last() != '"' && x.last() != '\'',
    ensures
        name_scan(s, p, true) == Some(x),
{
    let nline = name_key() + seq![' '] + x;
    assert(!nline.contains('\n')) by {
        if nline.contains('\n') {
            let i = choose|i: int| 0 <= i < nline.len() && nline[i] == '\n';
            if i >= 6 {
                assert(x[i - 6] == '\n');
            }
        }
    }
    assert(nline + seq!['\n'] == name_key() + seq![' '] + x + seq!['\n']);
    lemma_line_at(s, p, nline);
    assert(nline[0] == 'n');
    assert(nline.last() == x.last());
    crate::text::lemma_trim_by_fixed(nline, CharClass::Space);
    assert(trim(nline) == nline);
    assert(nline != fence()) by {
        assert(nline.len() > 3);
    }
    assert(has_at(nline, 0, name_key())) by {
        assert(nline.subrange(0, 5) =~= name_key());
    }
    let after = nline.subrange(5, nline.len() as int);
    assert(after =~= seq![' '] + x);
    assert(trim(after) == x) by {
        assert(after[0] == ' ');
        assert(after.drop_first() =~= x);
        assert(crate::text::trim_start_by(x, CharClass::Space) == x);
        crate::text::lemma_trim_by_fixed(x, CharClass::Space);
    }
    crate::text::lemma_trim_by_fixed(x, CharClass::Quote);
    assert(name_on_line(nline) == Some(x));
}

/// Inside the frontmatter the first `name:` line answers with its name,
/// whatever lines came before it: for a SKILL.md that opens with `---`,
/// then lines that are neither the closing `---` nor `name:` lines, then
/// `name: <x>` with `<x>` free of surrounding blanks and quotes, the name is
/// `<x>`.
pub proof fn law_first_name_line_answers(ls: Seq<Seq<char>>, x: Seq<char>, rest: Seq<char>)
    requires
        forall|i: int| 0 <= i < ls.len() ==> {
            &&& !(#[trigger] ls[i]).contains('\n')
            &&& trim(ls[i]) != fence()
            &&& !has_at(trim(ls[i]), 0, name_key())
        },
        x.len() > 0,
        !x.contains('\n'),
        !crate::text::is_space(x[0]) && x[0] != '"' && x[0] != '\'',
        !crate::text::is_space(x.last()) && x.last() != '"' && x.last() != '\'',
    ensures
        skill_name_of(fence() + seq!['\n'] + joined_lines(ls) + name_key() + seq![' '] + x + seq!['\n'] + rest)
            == Some(x),
{
    let nl = seq!['\n'];
    let j = joined_lines(ls);
    let tail = name_key() + seq![' '] + x + nl;
    let s = fence() + nl + j + name_key() + seq![' '] + x + nl + rest;
    assert(s =~= fence() + nl + j + tail + rest);
    assert(s[0] == '-');
    assert(without_bom(s) == s);
    assert(has_at(s, 0, fence() + nl)) by {
        assert(s.subrange(0, 4) =~= fence() + nl);
    }
    lemma_opening_fence(s);
    assert(has_at(s, 4, j)) by {
        assert(s.subrange(4, 4 + j.len() as int) =~= j);
    }
    lemma_skip_lines(s, 4, ls);
    let p: int = 4 + j.len() as int;
    assert(has_at(s, p, tail)) by {
        assert(s.subrange(p, p + tail.len() as int) =~= tail);
    }
    lemma_name_line(s, p, x);
}

/// The closing `---` fence ends the frontmatter: a SKILL.md that opens
/// with `---`, then has lines that are neither `---` nor `name:` lines,
/// then the closing `---`, has no name, whatever follows.
pub proof fn law_closing_fence_ends_the_search(ls: Seq<Seq<char>>, rest: Seq<char>)
    requires
        forall|i: int| 0 <= i < ls.len() ==> {
            &&& !(#[trigger] ls[i]).contains('\n')
            &&& trim(ls[i]) != fence()
            &&& !has_at(trim(ls[i]), 0, name_key())
        },
    ensures
        skill_name_of(fence() + seq!['\n'] + joined_lines(ls) + fence() + seq!['\n'] + rest) is None,
{
    let nl = seq!['\n'];
    let j = joined_lines(ls);
    let s = fence() + nl + j + fence() + nl + rest;
    assert(s[0] == '-');
    assert(without_bom(s) == s);
    assert(has_at(s, 0, fence() + nl)) by {
        assert(s.subrange(0, 4) =~= fence() + nl);
    }
    lemma_opening_fence(s);
    assert(has_at(s, 4, j)) by {
        assert(s.subrange(4, 4 + j.len() as int) =~= j);
    }
    lemma_skip_lines(s, 4, ls);
    let p: int = 4 + j.len() as int;
    assert(has_at(s, p, fence() + nl)) by {
        assert(s.subrange(p, p + 4) =~= fence() + nl);
    }
    assert(!fence().contains('\n'));
    lemma_line_at(s, p, fence());
    crate::text::lemma_trim_by_fixed(fence(), CharClass::Space);
}

fn line_name(t: &Vec<char>) -> (r: Option<Vec<char>>)
    ensures
        match r {
            Some(n) => name_on_line(t@) == Some(n@),
            None => name_on_line(t@).is_none(),
        },
{
    let key: Vec<char> = vec!['n', 'a', 'm', 'e', ':'];
    assert(key@ == name_key());
    if !matches_at(t, 0, &key) {
        return None;
    }
    let rest = slice_vec(t, 5, t.len());
    let a = trimmed(&rest, CharClass::Space);
    let b = trimmed(&a, CharClass::Quote);
    let n = trimmed(&b, CharClass::Space);
    if n.len() > 0 {
        Some(n)
    } else {
        None
    }
}

fn is_fence(t: &Vec<char>) -> (r: bool)
    ensures
        r == (t@ == fence()),
{
    let r = t.len() == 3 && t[0] == '-' && t[1] == '-' && t[2] == '-';
    if r {
        assert(t@ =~= fence());
    }
    r
}

/// The `name` field of a SKILL.md's YAML frontmatter, if present. The
/// frontmatter must open with a `---` fence on the first non-blank line; a
/// byte-order mark before it is tolerated.
pub fn parse_skill_name(text: &str) -> (r: Option<String>)
    ensures
        match r {
            Some(n) => skill_name_of(text@) == Some(n@),
            None => skill_name_of(text@).is_none(),
        },
{
    let raw = chars_of(text);
    let v = if raw.len() > 0 && raw[0] == '\u{feff}' {
        slice_vec(&raw, 1, raw.len())
    } else {
        raw
    };
    assert(v@ == without_bom(text@));
    let nl: Vec<char> = vec!['\n'];
    assert(nl@ == seq!['\n']);
    let mut pos: usize = 0;
    let mut opened = false;
    loop
        invariant
            v@ == without_bom(text@),
            nl@ == seq!['\n'],
            pos <= v@.len(),
            name_scan(v@, pos as int, opened) == name_scan(v@, 0, false),
        decreases v@.len() - pos,
    {
        let found = find_chars(&v, &nl, pos);
        proof {
            lemma_find_from_bounds(v@, nl@, pos as int);
        }
        let end = match found {
            Some(i) => i,
            None => v.len(),
        };
        let line = slice_vec(&v, pos, end);
        let t = trimmed(&line, CharClass::Space);
        let fenced = is_fence(&t);
        if !opened && t.len() > 0 && !fenced {
            return None;
        }
        if opened && fenced {
            return None;
        }
        if opened {
            if let Some(n) = line_name(&t) {
                return Some(string_of(&n));
            }
        }
        match found {
            None => {
                return None;
            },
            Some(i) => {
                assert(has_at(v@, i as int, nl@));
                assert(i + 1 <= v.len());
                opened = opened || fenced;
                pos = i + 1;
            },
        }
    }
}

/// The keys whose `enabledPlugins` flag is `true`, in order.
pub open spec fn enabled_keys(flags: Seq<(String, Option<bool>)>) -> Seq<Seq<char>>
    decreases flags.len(),
{
    if flags.len() == 0 {
        Seq::empty()
    } else {
        let rest = enabled_keys(flags.drop_last());
        if flags.last().1 == Some(true) {
            rest.push(flags.last().0@)
        } else {
            rest
        }
    }
}

/// The plugin keys enabled in the settings: those whose flag is exactly
/// `true` (a missing or non-boolean flag counts as off).
pub fn enabled_plugin_keys(flags: &Vec<(String, Option<bool>)>) -> (keys: Vec<String>)
    ensures
        keys@.map_values(|k: String| k@) == enabled_keys(flags@),
{
    let mut keys: Vec<String> = Vec::new();
    let mut i: usize = 0;
    while i < flags.len()
        invariant
            i <= flags@.len(),
            keys@.map_values(|k: String| k@) == enabled_keys(flags@.subrange(0, i as int)),
        decreases flags.len() - i,
    {
        assert(flags@.subrange(0, i + 1).drop_last() == flags@.subrange(0, i as int));
        let (k, v) = &flags[i];
        if *v == Some(true) {
            let ghost before = keys@;
            keys.push(k.clone());
            assert(keys@.map_values(|k: String| k@) =~= before.map_values(|k: String| k@).push(k@));
        }
        i = i + 1;
    }
    assert(flags@.subrange(0, flags@.len() as int) == flags@);
    keys
}

/// The first install record that carries an install path.
pub open spec fn first_path(records: Seq<Option<String>>) -> Option<String>
    decreases records.len(),
{
    if records.len() == 0 {
        None
    } else if records[0] is Some {
        records[0]
    } else {
        first_path(records.drop_first())
    }
}

/// A plugin's install path: the first of its install records that has one.
pub fn first_install_path(records: &Vec<Option<String>>) -> (r: Option<String>)
    ensures
        r == first_path(records@),
{
    assert(records@.subrange(0, records@.len() as int) == records@);
    let mut i: usize = 0;
    while i < records.len()
        invariant
            i <= records@.len(),
            first_path(records@.subrange(i as int, records@.len() as int)) == first_path(records@),
        decreases records.len() - i,
    {
        let ghost rest = records@.subrange(i as int, records@.len() as int);
        assert(rest.drop_first() == records@.subrange(i + 1, records@.len() as int));
        if let Some(p) = &records[i] {
            return Some(p.clone());
        }
        i = i + 1;
    }
    assert(records@.subrange(records@.len() as int, records@.len() as int) == Seq::<Option<String>>::empty());
    None
}

/// Names claimed for plugin `k`, on top of `m`: a name keeps the plugin
/// that claimed it first.
pub open spec fn claim_all(m: Map<Seq<char>, Seq<char>>, names: Seq<String>, k: Seq<char>) -> Map<Seq<char>, Seq<char>>
    decreases names.len(),
{
    if names.len() == 0 {
        m
    } else {
        let m2 = claim_all(m, names.drop_last(), k);
        let n = names.last()@;
        if m2.contains_key(n) {
            m2
        } else {
            m2.insert(n, k)
        }
    }
}

/// Skill name -> the first enabled plugin that provides it.
pub open spec fn plugin_claims(enabled: Seq<String>, provided: Map<Seq<char>, Vec<String>>) -> Map<Seq<char>, Seq<char>>
    decreases enabled.len(),
{
    if enabled.len() == 0 {
        Map::empty()
    } else {
        let m = plugin_claims(enabled.drop_last(), provided);
        let k = enabled.last()@;
        if provided.contains_key(k) {
            claim_all(m, provided[k]@, k)
        } else {
            m
        }
    }
}

fn claim_names(out: &mut StrMap<String>, names: &Vec<String>, key: &String)
    requires
        old(out).wf(),
    ensures
        final(out).wf(),
        final(out)@.map_values(|v: String| v@) == claim_all(old(out)@.map_values(|v: String| v@), names@, key@),
{
    let ghost m0 = out@.map_values(|v: String| v@);
    let mut i: usize = 0;
    while i < names.len()
        invariant
            i <= names@.len(),
            out.wf(),
            out@.map_values(|v: String| v@) == claim_all(m0, names@.subrange(0, i as int), key@),
        decreases names.len() - i,
    {
        assert(names@.subrange(0, i + 1).drop_last() == names@.subrange(0, i as int));
        let n = &names[i];
        if !out.contains_key(n.as_str()) {
            let ghost before = out@.map_values(|v: String| v@);
            out.insert(n.clone(), key.clone());
            assert(out@.map_values(|v: String| v@) =~= before.insert(n@, key@));
        }
        i = i + 1;
    }
    assert(names@.subrange(0, names@.len() as int) == names@);
}

/// Skill name -> the enabled plugin key (`<plugin>@<marketplace>`) that
/// provides it. `enabled` lists the enabled plugin keys in settings order;
/// `provided` gives, for each installed plugin, the skill names found under
/// its install path. The first plugin to claim a name keeps it.
pub fn enabled_plugin_skills(enabled: &Vec<String>, provided: &StrMap<Vec<String>>) -> (out: StrMap<String>)
    requires
        provided.wf(),
    ensures
        out.wf(),
        out@.map_values(|v: String| v@) == plugin_claims(enabled@, provided@),
{
    let mut out: StrMap<String> = StrMap::new();
    assert(out@.map_values(|v: String| v@) =~= Map::<Seq<char>, Seq<char>>::empty());
    let mut i: usize = 0;
    while i < enabled.len()
        invariant
            i <= enabled@.len(),
            provided.wf(),
            out.wf(),
            out@.map_values(|v: String| v@) == plugin_claims(enabled@.subrange(0, i as int), provided@),
        decreases enabled.len() - i,
    {
        assert(enabled@.subrange(0, i + 1).drop_last() == enabled@.subrange(0, i as int));
        let key = &enabled[i];
        if let Some(names) = provided.get(key.as_str()) {
            claim_names(&mut out, names, key);
        }
        i = i + 1;
    }
    assert(enabled@.subrange(0, enabled@.len() as int) == enabled@);
    out
}

} // verus!
