//! Naming of the zip archives a basin version is exported as.
//!
//! Every archive entry is nested under a `<skill>/` root so unpacking never
//! scatters files into the working directory, and entry paths use `/` so the
//! archive opens the same way on every OS.

use vstd::prelude::*;
use crate::text::{CharClass, trim_by, chars_of, trimmed, push_chars, is_ascii_alnum, char_is_ascii_alnum};

verus! {

/// Characters a file-name slug keeps as they are.
pub open spec fn is_name_char(c: char) -> bool {
    is_ascii_alnum(c) || c == '-' || c == '_' || c == '.'
}

/// `skill` with every other character replaced by `-`, trimmed of `-`.
pub open spec fn file_slug(skill: Seq<char>) -> Seq<char> {
    trim_by(skill.map_values(|c: char| if is_name_char(c) { c } else { '-' }), CharClass::Dash)
}

/// `<slug>-<version>.zip`, where an empty slug becomes `skill`.
pub open spec fn spec_export_file_name(skill: Seq<char>, version: Seq<char>) -> Seq<char> {
    let slug = file_slug(skill);
    let slug = if slug.len() == 0 { "skill"@ } else { slug };
    slug + seq!['-'] + version + seq!['.', 'z', 'i', 'p']
}

/// A skill's display name may contain characters that are illegal, or
/// meaningful, in a path, so it is slugged before it reaches the filesystem.
pub fn default_export_file_name(skill: &str, version: &str) -> (name: String)
    ensures
        name@ == spec_export_file_name(skill@, version@),
{
    let v = chars_of(skill);
    let mut mapped: Vec<char> = Vec::new();
    let mut i: usize = 0;
    while i < v.len()
        invariant
            i <= v@.len(),
            mapped@ == v@.take(i as int).map_values(|c: char| if is_name_char(c) { c } else { '-' }),
        decreases v.len() - i,
    {
        let c = v[i];
        let o = if char_is_ascii_alnum(c) || c == '-' || c == '_' || c == '.' {
            c
        } else {
            '-'
        };
        mapped.push(o);
        assert(v@.take(i + 1).map_values(|c: char| if is_name_char(c) { c } else { '-' }) =~= v@.take(
            i as int,
        ).map_values(|c: char| if is_name_char(c) { c } else { '-' }).push(o));
        i = i + 1;
    }
    assert(v@.take(v@.len() as int) == v@);
    let slug = trimmed(&mapped, CharClass::Dash);
    let mut name = if slug.len() == 0 {
        String::from_str("skill")
    } else {
        String::new()
    };
    if slug.len() > 0 {
        push_chars(&mut name, &slug);
    }
    let tail: Vec<char> = vec!['-'];
    push_chars(&mut name, &tail);
    let vv = chars_of(version);
    push_chars(&mut name, &vv);
    let ext: Vec<char> = vec!['.', 'z', 'i', 'p'];
    push_chars(&mut name, &ext);
    name
}

/// An export file name is a non-empty slug of safe characters that neither
/// starts nor ends with `-`, then `-`, the version, and `.zip`.
pub proof fn law_export_name_shape(skill: Seq<char>, version: Seq<char>)
    ensures
        ({
            let name = spec_export_file_name(skill, version);
            let slug = if file_slug(skill).len() == 0 { "skill"@ } else { file_slug(skill) };
            &&& name == slug + seq!['-'] + version + seq!['.', 'z', 'i', 'p']
            &&& slug.len() > 0
            &&& forall|i: int| 0 <= i < file_slug(skill).len() ==> is_name_char(#[trigger] file_slug(skill)[i])
            &&& file_slug(skill).len() > 0 ==> file_slug(skill)[0] != '-' && file_slug(skill).last() != '-'
            &&& name.subrange(name.len() - 4, name.len() as int) == seq!['.', 'z', 'i', 'p']
        }),
{
    let mapped = skill.map_values(|c: char| if is_name_char(c) { c } else { '-' });
    let (lo, hi) = crate::text::lemma_trim_by_shape(mapped, CharClass::Dash);
    let fs = file_slug(skill);
    assert forall|i: int| 0 <= i < fs.len() implies is_name_char(#[trigger] fs[i]) by {
        assert(fs[i] == mapped[lo + i]);
    }
    reveal_strlit("skill");
    let name = spec_export_file_name(skill, version);
    assert(name.subrange(name.len() - 4, name.len() as int) =~= seq!['.', 'z', 'i', 'p']);
}

/// The file slug keeps every ASCII letter (either case), digit, `-`, `_`
/// and `.` of the skill name in place and turns every other character into
/// `-`: for a name that begins and ends with a kept character other than
/// `-`, the file name is that character-for-character image of the name,
/// `-`, the version and `.zip`. In particular a name made only of kept
/// characters is kept exactly.
pub proof fn law_export_name_keeps_safe_characters(skill: Seq<char>, version: Seq<char>)
    requires
        skill.len() > 0,
        ('a' <= skill[0] && skill[0] <= 'z') || ('A' <= skill[0] && skill[0] <= 'Z') || ('0' <= skill[0] && skill[0]
            <= '9') || skill[0] == '_' || skill[0] == '.',
        ('a' <= skill.last() && skill.last() <= 'z') || ('A' <= skill.last() && skill.last() <= 'Z') || ('0'
            <= skill.last() && skill.last() <= '9') || skill.last() == '_' || skill.last() == '.',
    ensures
        spec_export_file_name(skill, version) == Seq::new(
            skill.len(),
            |i: int|
                {
                    let c = skill[i];
                    if ('a' <= c && c <= 'z') || ('A' <= c && c <= 'Z') || ('0' <= c && c <= '9') || c == '-' || c
                        == '_' || c == '.' {
                        c
                    } else {
                        '-'
                    }
                },
        ) + seq!['-'] + version + seq!['.', 'z', 'i', 'p'],
        (forall|i: int| 0 <= i < skill.len() ==> {
            let c = #[trigger] skill[i];
            ('a' <= c && c <= 'z') || ('A' <= c && c <= 'Z') || ('0' <= c && c <= '9') || c == '-' || c == '_'
                || c == '.'
        }) ==> spec_export_file_name(skill, version) == skill + seq!['-'] + version + seq!['.', 'z', 'i', 'p'],
{
    let mapped = skill.map_values(|c: char| if is_name_char(c) { c } else { '-' });
    let img = Seq::new(
        skill.len(),
        |i: int|
            {
                let c = skill[i];
                if ('a' <= c && c <= 'z') || ('A' <= c && c <= 'Z') || ('0' <= c && c <= '9') || c == '-' || c == '_'
                    || c == '.' {
                    c
                } else {
                    '-'
                }
            },
    );
    assert(mapped =~= img);
    assert(mapped[0] == skill[0]);
    assert(mapped.last() == skill.last());
    crate::text::lemma_trim_by_fixed(mapped, CharClass::Dash);
    if forall|i: int| 0 <= i < skill.len() ==> {
        let c = #[trigger] skill[i];
        ('a' <= c && c <= 'z') || ('A' <= c && c <= 'Z') || ('0' <= c && c <= '9') || c == '-' || c == '_' || c
            == '.'
    } {
        assert(img =~= skill);
    }
}

/// `root/` followed by the path components joined with `/`.
pub open spec fn archive_path(root: Seq<char>, components: Seq<Seq<char>>) -> Seq<char>
    decreases components.len(),
{
    if components.len() == 0 {
        root
    } else {
        archive_path(root, components.drop_last()) + seq!['/'] + components.last()
    }
}

/// Name of the archive entry for a file at `components` (relative to the
/// version directory) under the `root` directory: always `/`-separated.
pub fn archive_entry_name(root: &str, components: &Vec<String>) -> (name: String)
    ensures
        name@ == archive_path(root@, components@.map_values(|c: String| c@)),
{
    let ghost cs = components@.map_values(|c: String| c@);
    let mut name = root.to_string();
    let mut i: usize = 0;
    let slash: Vec<char> = vec!['/'];
    while i < components.len()
        invariant
            cs == components@.map_values(|c: String| c@),
            slash@ == seq!['/'],
            i <= components@.len(),
            name@ == archive_path(root@, cs.take(i as int)),
        decreases components.len() - i,
    {
        push_chars(&mut name, &slash);
        let c = chars_of(components[i].as_str());
        push_chars(&mut name, &c);
        assert(cs.take(i + 1).drop_last() == cs.take(i as int));
        i = i + 1;
    }
    assert(cs.take(components@.len() as int) == cs);
    name
}

} // verus!
