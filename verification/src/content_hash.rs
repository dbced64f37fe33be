//! Content hash of a skill directory: SHA-256 over every entry's relative
//! path (with `/` separators) and every file's bytes, in walk order. The
//! walk itself (sorted by file name, ignored names pruned) happens where the
//! files are; this module turns what it found into the hash, so the same
//! content hashes identically on every machine.

use vstd::prelude::*;
use sha2::Digest;
use crate::paths::str_eq;
use crate::text::{chars_of, push_char, utf8_bytes};

verus! {

/// Names that never take part in a content hash.
pub const IGNORE_NAMES: [&'static str; 4] = [".git", ".DS_Store", "Thumbs.db", ".gitignore"];

pub open spec fn is_ignored(name: Seq<char>) -> bool {
    exists|i: int| 0 <= i < 4 && #[trigger] IGNORE_NAMES[i]@ == name
}

/// Whether a directory entry with this file name is left out of the hash
/// (and, for a directory, not descended into).
pub fn is_ignored_name(name: &str) -> (r: bool)
    ensures
        r == is_ignored(name@),
{
    let names = IGNORE_NAMES;
    let mut i: usize = 0;
    while i < 4
        invariant
            i <= 4,
            names == IGNORE_NAMES,
            forall|j: int| 0 <= j < i ==> #[trigger] IGNORE_NAMES[j]@ != name@,
        decreases 4 - i,
    {
        if str_eq(names[i], name) {
            return true;
        }
        i = i + 1;
    }
    false
}

/// One entry of the walk: its path relative to the hashed directory, and
/// its bytes when it is a regular file.
#[derive(Debug, Clone)]
pub struct WalkEntry {
    pub relative: String,
    pub contents: Option<Vec<u8>>,
}

/// `\` separators turned into `/`.
pub open spec fn normalize_separators(s: Seq<char>) -> Seq<char> {
    s.map_values(|c: char| if c == '\\' { '/' } else { c })
}

/// What one entry contributes to the hashed message.
pub open spec fn entry_bytes(e: WalkEntry) -> Seq<u8> {
    utf8_bytes(normalize_separators(e.relative@)) + match e.contents {
        Some(b) => b@,
        None => Seq::empty(),
    }
}

/// The hashed message: every entry's contribution, in walk order.
pub open spec fn hash_message(es: Seq<WalkEntry>) -> Seq<u8>
    decreases es.len(),
{
    if es.len() == 0 {
        Seq::empty()
    } else {
        hash_message(es.drop_last()) + entry_bytes(es.last())
    }
}

/// Lowercase hex digit of a value below 16.
pub open spec fn hex_digit(d: int) -> char {
    if d < 10 {
        ((d + 48) as u8) as char
    } else {
        ((d + 87) as u8) as char
    }
}

/// Lowercase hex of the bytes, two digits per byte.
pub open spec fn hex_lower(b: Seq<u8>) -> Seq<char>
    decreases b.len(),
{
    if b.len() == 0 {
        Seq::empty()
    } else {
        hex_lower(b.drop_last()) + seq![hex_digit(b.last() as int / 16), hex_digit(b.last() as int % 16)]
    }
}

/// What SHA-256 gives for a message.
pub uninterp spec fn sha256_digest(data: Seq<u8>) -> Seq<u8>;

/// Calls `sha2::Sha256::digest`; the contract claims that the result is the
/// named digest of the bytes and, as SHA-256 is defined, 32 bytes long.
#[verifier::external_body]
fn sha256(data: &[u8]) -> (d: Vec<u8>)
    ensures
        d@ == sha256_digest(data@),
        d@.len() == 32,
{
    sha2::Sha256::digest(data).to_vec()
}

/// Calls `hex::encode`, which writes each byte as two lowercase hex digits.
#[verifier::external_body]
fn hex_encode(data: &[u8]) -> (s: String)
    ensures
        s@ == hex_lower(data@),
{
    hex::encode(data)
}

/// The message a list of walk entries is hashed over.
pub fn hash_message_bytes(entries: &Vec<WalkEntry>) -> (m: Vec<u8>)
    ensures
        m@ == hash_message(entries@),
{
    let mut m: Vec<u8> = Vec::new();
    let mut i: usize = 0;
    while i < entries.len()
        invariant
            i <= entries@.len(),
            m@ == hash_message(entries@.subrange(0, i as int)),
        decreases entries.len() - i,
    {
        let e = &entries[i];
        assert(entries@.subrange(0, i + 1).drop_last() == entries@.subrange(0, i as int));
        let cs = chars_of(e.relative.as_str());
        let mut norm = String::new();
        let mut j: usize = 0;
        while j < cs.len()
            invariant
                j <= cs@.len(),
                cs@ == e.relative@,
                norm@ == normalize_separators(cs@.subrange(0, j as int)),
            decreases cs.len() - j,
        {
            let c = cs[j];
            push_char(&mut norm, if c == '\\' { '/' } else { c });
            assert(normalize_separators(cs@.subrange(0, j + 1)) =~= normalize_separators(cs@.subrange(0, j as int)).push(
                if c == '\\' { '/' } else { c },
            ));
            j = j + 1;
        }
        assert(cs@.subrange(0, cs@.len() as int) == cs@);
        let bytes = norm.as_str().as_bytes();
        let ghost before = m@;
        let mut k: usize = 0;
        while k < bytes.len()
            invariant
                k <= bytes@.len(),
                m@ == before + bytes@.subrange(0, k as int),
            decreases bytes.len() - k,
        {
            m.push(bytes[k]);
            assert(bytes@.subrange(0, k + 1) == bytes@.subrange(0, k as int).push(bytes@[k as int]));
            k = k + 1;
        }
        assert(bytes@.subrange(0, bytes@.len() as int) == bytes@);
        let ghost mid = m@;
        match &e.contents {
            Some(b) => {
                let mut k: usize = 0;
                while k < b.len()
                    invariant
                        k <= b@.len(),
                        m@ == mid + b@.subrange(0, k as int),
                    decreases b.len() - k,
                {
                    m.push(b[k]);
                    assert(b@.subrange(0, k + 1) == b@.subrange(0, k as int).push(b@[k as int]));
                    k = k + 1;
                }
                assert(b@.subrange(0, b@.len() as int) == b@);
            },
            None => {},
        }
        assert(m@ =~= hash_message(entries@.subrange(0, i as int)) + entry_bytes(*e));
        i = i + 1;
    }
    assert(entries@.subrange(0, entries@.len() as int) == entries@);
    m
}

/// Two walks that differ only in which separator their paths use give the
/// same message, so a directory hashes the same on every operating system.
pub proof fn law_hash_ignores_separator_style(a: Seq<WalkEntry>, b: Seq<WalkEntry>)
    requires
        a.len() == b.len(),
        forall|i: int| 0 <= i < a.len() ==> normalize_separators((#[trigger] a[i]).relative@) == normalize_separators(b[i].relative@),
        forall|i: int| 0 <= i < a.len() ==> (#[trigger] a[i]).contents == b[i].contents,
    ensures
        hash_message(a) == hash_message(b),
        hex_lower(sha256_digest(hash_message(a))) == hex_lower(sha256_digest(hash_message(b))),
    decreases a.len(),
{
    if a.len() > 0 {
        let n = a.len() - 1;
        assert forall|i: int| 0 <= i < n implies normalize_separators((#[trigger] a.drop_last()[i]).relative@) == normalize_separators(b.drop_last()[i].relative@) by {
            assert(a.drop_last()[i] == a[i] && b.drop_last()[i] == b[i]);
        }
        assert forall|i: int| 0 <= i < n implies (#[trigger] a.drop_last()[i]).contents == b.drop_last()[i].contents by {
            assert(a.drop_last()[i] == a[i] && b.drop_last()[i] == b[i]);
        }
        law_hash_ignores_separator_style(a.drop_last(), b.drop_last());
        assert(a.last() == a[n] && b.last() == b[n]);
        assert(entry_bytes(a.last()) == entry_bytes(b.last()));
    }
}

/// Lowercase hex of a digest.
pub fn digest_hex(digest: &Vec<u8>) -> (s: String)
    ensures
        s@ == hex_lower(digest@),
{
    hex_encode(digest.as_slice())
}

/// The content hash of a walked directory: lowercase hex of the SHA-256 of
/// its message.
pub fn hash_entries(entries: &Vec<WalkEntry>) -> (h: String)
    ensures
        h@ == hex_lower(sha256_digest(hash_message(entries@))),
        h@.len() == 64,
{
    let m = hash_message_bytes(entries);
    let d = sha256(m.as_slice());
    proof {
        lemma_hex_len(d@);
    }
    digest_hex(&d)
}

proof fn lemma_hex_len(b: Seq<u8>)
    ensures
        hex_lower(b).len() == 2 * b.len(),
    decreases b.len(),
{
    if b.len() > 0 {
        lemma_hex_len(b.drop_last());
    }
}

} // verus!
