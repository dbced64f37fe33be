//! This installation's stable identifier for `machines/<id>/pins.json`.
//!
//! Best-effort human-readable (the hostname), falling back to a generated
//! id; whichever is chosen is persisted once so it never changes underfoot.

use vstd::prelude::*;
use crate::text::{
    CharClass, trim_by, trim, trimmed, chars_of, string_of, push_chars, is_ascii_alnum, ascii_lower,
    char_is_ascii_alnum, char_ascii_lower, is_space, trim_start_by, trim_end_by,
};

verus! {

pub const MACHINE_ID_SETTING: &'static str = "machine_id";

/// ASCII letters and digits lowercased; everything else becomes `-`.
pub open spec fn slug_char(c: char) -> char {
    if is_ascii_alnum(c) {
        ascii_lower(c)
    } else {
        '-'
    }
}

/// `name` lowercased, with every non-alphanumeric character replaced by `-`
/// and the leading and trailing `-` removed.
pub open spec fn spec_slugify(name: Seq<char>) -> Seq<char> {
    trim_by(name.map_values(|c: char| slug_char(c)), CharClass::Dash)
}

/// Slug of a host name (see [`spec_slugify`]).
pub fn slugify(name: &str) -> (slug: String)
    ensures
        slug@ == spec_slugify(name@),
{
    let v = chars_of(name);
    let mut mapped: Vec<char> = Vec::new();
    let mut i: usize = 0;
    while i < v.len()
        invariant
            i <= v@.len(),
            mapped@ == v@.take(i as int).map_values(|c: char| slug_char(c)),
        decreases v.len() - i,
    {
        let c = v[i];
        let o = if char_is_ascii_alnum(c) {
            char_ascii_lower(c)
        } else {
            '-'
        };
        mapped.push(o);
        assert(v@.take(i + 1).map_values(|c: char| slug_char(c)) =~= v@.take(i as int).map_values(
            |c: char| slug_char(c),
        ).push(slug_char(c)));
        i = i + 1;
    }
    assert(v@.take(v@.len() as int) == v@);
    let t = trimmed(&mapped, CharClass::Dash);
    string_of(&t)
}

/// A slug is made of lowercase ASCII letters, digits and `-`, never starts
/// or ends with `-`, and slugging it again changes nothing.
pub proof fn law_slug_shape(name: Seq<char>)
    ensures
        forall|i: int| 0 <= i < spec_slugify(name).len() ==> {
            let c = #[trigger] spec_slugify(name)[i];
            ('a' <= c && c <= 'z') || ('0' <= c && c <= '9') || c == '-'
        },
        spec_slugify(name).len() > 0 ==> spec_slugify(name)[0] != '-' && spec_slugify(name).last() != '-',
        spec_slugify(spec_slugify(name)) == spec_slugify(name),
{
    let mapped = name.map_values(|c: char| slug_char(c));
    let (lo, hi) = crate::text::lemma_trim_by_shape(mapped, CharClass::Dash);
    let s = spec_slugify(name);
    assert forall|i: int| 0 <= i < s.len() implies {
        let c = #[trigger] s[i];
        ('a' <= c && c <= 'z') || ('0' <= c && c <= '9') || c == '-'
    } by {
        assert(s[i] == mapped[lo + i]);
    }
    let again = s.map_values(|c: char| slug_char(c));
    assert forall|i: int| 0 <= i < s.len() implies #[trigger] again[i] == s[i] by {
        assert(s[i] == mapped[lo + i]);
    }
    assert(again =~= s);
    crate::text::lemma_trim_by_fixed(s, CharClass::Dash);
}

/// Slugging keeps ASCII letters and digits where they are, lowercased, and
/// turns every other character into `-`: a name that begins and ends with
/// an ASCII letter or digit slugs to a string of its own length, with each
/// digit and lowercase letter unchanged and each uppercase letter lowered.
pub proof fn law_slug_keeps_letters_and_digits(name: Seq<char>)
    requires
        name.len() > 0,
        ('a' <= name[0] && name[0] <= 'z') || ('A' <= name[0] && name[0] <= 'Z') || ('0' <= name[0] && name[0] <= '9'),
        ('a' <= name.last() && name.last() <= 'z') || ('A' <= name.last() && name.last() <= 'Z') || ('0' <= name.last()
            && name.last() <= '9'),
    ensures
        spec_slugify(name).len() == name.len(),
        forall|i: int|
            0 <= i < name.len() ==> {
                let c = #[trigger] name[i];
                let o = spec_slugify(name)[i];
                &&& (('a' <= c && c <= 'z') || ('0' <= c && c <= '9')) ==> o == c
                &&& ('A' <= c && c <= 'Z') ==> o as u32 == c as u32 + 32
                &&& !(('a' <= c && c <= 'z') || ('A' <= c && c <= 'Z') || ('0' <= c && c <= '9')) ==> o == '-'
            },
{
    let mapped = name.map_values(|c: char| slug_char(c));
    assert(mapped[0] == slug_char(name[0]));
    assert(mapped.last() == slug_char(name.last()));
    crate::text::lemma_trim_by_fixed(mapped, CharClass::Dash);
    assert forall|i: int| 0 <= i < name.len() implies {
        let c = #[trigger] name[i];
        let o = spec_slugify(name)[i];
        &&& (('a' <= c && c <= 'z') || ('0' <= c && c <= '9')) ==> o == c
        &&& ('A' <= c && c <= 'Z') ==> o as u32 == c as u32 + 32
        &&& !(('a' <= c && c <= 'z') || ('A' <= c && c <= 'Z') || ('0' <= c && c <= '9')) ==> o == '-'
    } by {
        assert(spec_slugify(name)[i] == slug_char(name[i]));
    }
}

/// A name of lowercase letters, digits and dashes that neither begins nor
/// ends with a dash is its own slug (`web01` stays `web01`).
pub proof fn law_slug_of_a_slug_is_itself(name: Seq<char>)
    requires
        forall|i: int| 0 <= i < name.len() ==> {
            let c = #[trigger] name[i];
            ('a' <= c && c <= 'z') || ('0' <= c && c <= '9') || c == '-'
        },
        name.len() > 0 ==> name[0] != '-' && name.last() != '-',
    ensures
        spec_slugify(name) == name,
{
    let mapped = name.map_values(|c: char| slug_char(c));
    assert forall|i: int| 0 <= i < name.len() implies mapped[i] == name[i] by {
        let c = name[i];
        assert(('a' <= c && c <= 'z') || ('0' <= c && c <= '9') || c == '-');
    }
    assert(mapped =~= name);
    crate::text::lemma_trim_by_fixed(name, CharClass::Dash);
}

/// Lowercase hexadecimal digit.
pub open spec fn is_lower_hex(c: char) -> bool {
    ('0' <= c && c <= '9') || ('a' <= c && c <= 'f')
}

/// A freshly generated random id: the 32 lowercase hex digits of a version 4
/// UUID.
///
/// Trusted: `uuid::Uuid::new_v4` gives a random UUID and its `simple()`
/// formatting writes it as 32 lowercase hexadecimal digits. Which digits
/// come out is left open: they are random.
#[verifier::external_body]
fn random_uuid_simple() -> (s: String)
    ensures
        s@.len() == 32,
        forall|i: int| 0 <= i < 32 ==> is_lower_hex(#[trigger] s@[i]),
{
    uuid::Uuid::new_v4().simple().to_string()
}

/// A stored id that is not blank.
pub open spec fn kept_stored(stored: Option<String>) -> bool {
    match stored {
        Some(s) => trim(s@).len() > 0,
        None => false,
    }
}

/// What choosing a machine id may give: a stored non-blank id is kept as it
/// is and asks for no write; otherwise a new id that must be persisted: the
/// slug of the (trimmed) host name when it is not empty, else `machine-`
/// followed by 32 lowercase hex digits.
pub open spec fn machine_id_choice(stored: Option<String>, hostname: Option<String>, r: (String, bool)) -> bool {
    if kept_stored(stored) {
        r.0 == stored->0 && !r.1
    } else {
        &&& r.1
        &&& match hostname {
            Some(h) if spec_slugify(trim(h@)).len() > 0 => r.0@ == spec_slugify(trim(h@)),
            _ => {
                &&& r.0@.len() == 40
                &&& r.0@.take(8) == "machine-"@
                &&& forall|i: int| 8 <= i < 40 ==> is_lower_hex(#[trigger] r.0@[i])
            },
        }
    }
}

/// The machine id to use (see [`machine_id_choice`]); the random digits of
/// a generated id are left open. The flag says whether the id is new (and
/// must be persisted).
pub fn choose_machine_id(stored: Option<String>, hostname: Option<String>) -> (r: (String, bool))
    ensures
        machine_id_choice(stored, hostname, r),
{
    match stored {
        Some(s) => {
            let v = chars_of(s.as_str());
            let t = trimmed(&v, CharClass::Space);
            if t.len() > 0 {
                return (s, false);
            }
        },
        None => {},
    }
    match hostname {
        Some(h) => {
            let v = chars_of(h.as_str());
            let t = trimmed(&v, CharClass::Space);
            let ts = string_of(&t);
            let slug = slugify(ts.as_str());
            let sv = chars_of(slug.as_str());
            if sv.len() > 0 {
                return (slug, true);
            }
        },
        None => {},
    }
    let mut id = String::from_str("machine-");
    let u = random_uuid_simple();
    let uv = chars_of(u.as_str());
    proof {
        reveal_strlit("machine-");
    }
    push_chars(&mut id, &uv);
    assert(id@.take(8) == "machine-"@);
    (id, true)
}

proof fn lemma_trim_keeps_nonblank_start(s: Seq<char>)
    requires
        s.len() > 0,
        !is_space(s[0]),
    ensures
        trim(s).len() > 0,
{
    assert(trim_start_by(s, CharClass::Space) == s);
    lemma_trim_end_keeps_start(s);
}

proof fn lemma_trim_end_keeps_start(s: Seq<char>)
    requires
        s.len() > 0,
        !is_space(s[0]),
    ensures
        trim_end_by(s, CharClass::Space).len() > 0,
    decreases s.len(),
{
    if s.len() > 1 && is_space(s.last()) {
        assert(s.drop_last()[0] == s[0]);
        lemma_trim_end_keeps_start(s.drop_last());
    }
}

/// A chosen machine id is stable: handed back as the stored id, whatever
/// the host name is by then, it is kept as it is and nothing is written.
pub proof fn law_machine_id_stable(
    stored: Option<String>,
    hostname: Option<String>,
    r: (String, bool),
    later_hostname: Option<String>,
    again: (String, bool),
)
    requires
        machine_id_choice(stored, hostname, r),
        machine_id_choice(Some(r.0), later_hostname, again),
    ensures
        again.0 == r.0,
        !again.1,
{
    if !kept_stored(stored) {
        match hostname {
            Some(h) if spec_slugify(trim(h@)).len() > 0 => {
                law_slug_shape(trim(h@));
                let c = r.0@[0];
                assert(('a' <= c && c <= 'z') || ('0' <= c && c <= '9'));
                lemma_trim_keeps_nonblank_start(r.0@);
            },
            _ => {
                reveal_strlit("machine-");
                assert(r.0@[0] == r.0@.take(8)[0]);
                lemma_trim_keeps_nonblank_start(r.0@);
            },
        }
    }
    assert(kept_stored(Some(r.0)));
}

} // verus!
