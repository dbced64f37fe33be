//! String-keyed maps kept in key order.
//!
//! `StrMap` stores its entries in a `Vec` sorted strictly by key, so walking
//! it visits keys in increasing order: the order in which a `BTreeMap<String, _>`
//! walks its keys (`String`'s `Ord` compares UTF-8 bytes, which orders strings
//! as their code points do).

use vstd::prelude::*;
use crate::text::chars_of;

verus! {

/// Code-point order on characters.
pub open spec fn char_lt(a: char, b: char) -> bool {
    a < b
}

/// Lexicographic order on character sequences (the order of `String`).
pub open spec fn str_lt(a: Seq<char>, b: Seq<char>) -> bool
    decreases a.len(),
{
    if a.len() == 0 {
        b.len() > 0
    } else if b.len() == 0 {
        false
    } else if char_lt(a[0], b[0]) {
        true
    } else if a[0] == b[0] {
        str_lt(a.drop_first(), b.drop_first())
    } else {
        false
    }
}

pub proof fn lemma_str_lt_irreflexive(a: Seq<char>)
    ensures
        !str_lt(a, a),
    decreases a.len(),
{
    if a.len() > 0 {
        lemma_str_lt_irreflexive(a.drop_first());
    }
}

pub proof fn lemma_str_lt_transitive(a: Seq<char>, b: Seq<char>, c: Seq<char>)
    requires
        str_lt(a, b),
        str_lt(b, c),
    ensures
        str_lt(a, c),
    decreases a.len(),
{
    if a.len() > 0 && b.len() > 0 && c.len() > 0 {
        if a[0] == b[0] && b[0] == c[0] {
            lemma_str_lt_transitive(a.drop_first(), b.drop_first(), c.drop_first());
        }
    }
}

pub proof fn lemma_str_lt_total(a: Seq<char>, b: Seq<char>)
    ensures
        a == b || str_lt(a, b) || str_lt(b, a),
    decreases a.len(),
{
    if a.len() > 0 && b.len() > 0 {
        if a[0] == b[0] {
            lemma_str_lt_total(a.drop_first(), b.drop_first());
            if a.drop_first() == b.drop_first() {
                assert(a == seq![a[0]] + a.drop_first());
                assert(b == seq![b[0]] + b.drop_first());
            }
        }
    } else if a.len() == 0 && b.len() == 0 {
        assert(a == b);
    }
}

pub proof fn lemma_str_lt_asymmetric(a: Seq<char>, b: Seq<char>)
    requires
        str_lt(a, b),
    ensures
        !str_lt(b, a),
{
    if str_lt(b, a) {
        lemma_str_lt_transitive(a, b, a);
        lemma_str_lt_irreflexive(a);
    }
}

/// Whether `a < b`, comparing character by character.
pub fn chars_less(a: &Vec<char>, b: &Vec<char>) -> (r: bool)
    ensures
        r == str_lt(a@, b@),
{
    let mut i: usize = 0;
    assert(a@.subrange(0, a@.len() as int) == a@);
    assert(b@.subrange(0, b@.len() as int) == b@);
    while i < a.len() && i < b.len() && a[i] == b[i]
        invariant
            i <= a@.len(),
            i <= b@.len(),
            a@.subrange(0, i as int) == b@.subrange(0, i as int),
            str_lt(a@, b@) == str_lt(a@.subrange(i as int, a@.len() as int), b@.subrange(i as int, b@.len() as int)),
        decreases a.len() - i,
    {
        let ghost sa = a@.subrange(i as int, a@.len() as int);
        let ghost sb = b@.subrange(i as int, b@.len() as int);
        assert(sa.drop_first() == a@.subrange(i + 1, a@.len() as int));
        assert(sb.drop_first() == b@.subrange(i + 1, b@.len() as int));
        assert(a@.subrange(0, i + 1) == a@.subrange(0, i as int).push(a@[i as int]));
        assert(b@.subrange(0, i + 1) == b@.subrange(0, i as int).push(b@[i as int]));
        i = i + 1;
    }
    let ghost sa = a@.subrange(i as int, a@.len() as int);
    let ghost sb = b@.subrange(i as int, b@.len() as int);
    if i == a.len() {
        i < b.len()
    } else if i == b.len() {
        false
    } else {
        assert(sa[0] == a@[i as int]);
        assert(sb[0] == b@[i as int]);
        a[i] < b[i]
    }
}

/// Whether `a < b` in `String` order.
pub fn str_less(a: &str, b: &str) -> (r: bool)
    ensures
        r == str_lt(a@, b@),
{
    let va = chars_of(a);
    let vb = chars_of(b);
    chars_less(&va, &vb)
}

/// Every element is below every later one.
pub open spec fn sorted_strict(s: Seq<Seq<char>>) -> bool {
    forall|i: int, j: int| 0 <= i < j < s.len() ==> str_lt(#[trigger] s[i], #[trigger] s[j])
}

/// Two strictly sorted sequences holding the same elements are equal.
pub proof fn lemma_sorted_unique(s: Seq<Seq<char>>, t: Seq<Seq<char>>)
    requires
        sorted_strict(s),
        sorted_strict(t),
        forall|k: Seq<char>| s.contains(k) <==> t.contains(k),
    ensures
        s == t,
    decreases s.len(),
{
    if s.len() == 0 {
        if t.len() > 0 {
            assert(t.contains(t[0]));
        }
    } else if t.len() == 0 {
        assert(s.contains(s[0]));
    } else {
        // Both heads are the least element.
        assert(s.contains(s[0]));
        assert(t.contains(t[0]));
        let i = choose|i: int| 0 <= i < t.len() && t[i] == s[0];
        let j = choose|j: int| 0 <= j < s.len() && s[j] == t[0];
        if i > 0 {
            if j > 0 {
                lemma_str_lt_asymmetric(t[0], t[i]);
            } else {
                lemma_str_lt_irreflexive(t[0]);
            }
        }
        assert(s[0] == t[0]) by {
            if i > 0 {
                if j == 0 {
                    lemma_str_lt_irreflexive(t[0]);
                }
            }
        }
        let s1 = s.drop_first();
        let t1 = t.drop_first();
        assert forall|k: Seq<char>| s1.contains(k) <==> t1.contains(k) by {
            if s1.contains(k) {
                let a = choose|a: int| 0 <= a < s1.len() && s1[a] == k;
                assert(s[a + 1] == k);
                assert(str_lt(s[0], k));
                assert(t.contains(k));
                let b = choose|b: int| 0 <= b < t.len() && t[b] == k;
                if b == 0 {
                    lemma_str_lt_irreflexive(k);
                }
                assert(t1[b - 1] == k);
            }
            if t1.contains(k) {
                let a = choose|a: int| 0 <= a < t1.len() && t1[a] == k;
                assert(t[a + 1] == k);
                assert(str_lt(t[0], k));
                assert(s.contains(k));
                let b = choose|b: int| 0 <= b < s.len() && s[b] == k;
                if b == 0 {
                    lemma_str_lt_irreflexive(k);
                }
                assert(s1[b - 1] == k);
            }
        }
        lemma_sorted_unique(s1, t1);
        assert(s == seq![s[0]] + s1);
        assert(t == seq![t[0]] + t1);
    }
}

/// The elements of a finite set of strings in increasing order.
pub open spec fn sorted_keys(s: Set<Seq<char>>) -> Seq<Seq<char>> {
    choose|q: Seq<Seq<char>>| sorted_strict(q) && forall|k: Seq<char>| q.contains(k) <==> s.contains(k)
}

/// A non-empty finite set of strings has a least element.
proof fn lemma_least(s: Set<Seq<char>>) -> (m: Seq<char>)
    requires
        s.finite(),
        s.len() > 0,
    ensures
        s.contains(m),
        forall|k: Seq<char>| s.contains(k) && k != m ==> str_lt(m, k),
    decreases s.len(),
{
    let x = s.choose();
    let r = s.remove(x);
    if r.len() == 0 {
        assert forall|k: Seq<char>| s.contains(k) && k != x implies str_lt(x, k) by {
            assert(r.contains(k));
        }
        x
    } else {
        let y = lemma_least(r);
        lemma_str_lt_total(x, y);
        if str_lt(x, y) {
            assert forall|k: Seq<char>| s.contains(k) && k != x implies str_lt(x, k) by {
                assert(r.contains(k));
                if k != y {
                    lemma_str_lt_transitive(x, y, k);
                }
            }
            x
        } else {
            y
        }
    }
}

/// Every finite set of strings has an increasing listing, so
/// `sorted_keys` lists exactly its elements.
pub proof fn lemma_sorted_keys_exist(s: Set<Seq<char>>)
    requires
        s.finite(),
    ensures
        sorted_strict(sorted_keys(s)),
        forall|k: Seq<char>| sorted_keys(s).contains(k) <==> s.contains(k),
    decreases s.len(),
{
    let w = lemma_sorted_listing(s);
    assert(sorted_strict(w) && forall|k: Seq<char>| w.contains(k) <==> s.contains(k));
}

proof fn lemma_sorted_listing(s: Set<Seq<char>>) -> (q: Seq<Seq<char>>)
    requires
        s.finite(),
    ensures
        sorted_strict(q),
        forall|k: Seq<char>| q.contains(k) <==> s.contains(k),
    decreases s.len(),
{
    if s.len() == 0 {
        assert forall|k: Seq<char>| !s.contains(k) by {
            if s.contains(k) {
                assert(s.remove(k).len() + 1 == s.len());
            }
        }
        Seq::empty()
    } else {
        let m = lemma_least(s);
        let t = lemma_sorted_listing(s.remove(m));
        let q = seq![m] + t;
        assert forall|i: int, j: int| 0 <= i < j < q.len() implies str_lt(#[trigger] q[i], #[trigger] q[j]) by {
            if i == 0 {
                assert(q[j] == t[j - 1]);
                assert(t.contains(t[j - 1]));
            } else {
                assert(q[i] == t[i - 1] && q[j] == t[j - 1]);
            }
        }
        assert forall|k: Seq<char>| q.contains(k) <==> s.contains(k) by {
            if q.contains(k) {
                let i = choose|i: int| 0 <= i < q.len() && q[i] == k;
                if i > 0 {
                    assert(t[i - 1] == k);
                    assert(t.contains(k));
                }
            }
            if s.contains(k) {
                if k == m {
                    assert(q[0] == k);
                } else {
                    assert(t.contains(k));
                    let i = choose|i: int| 0 <= i < t.len() && t[i] == k;
                    assert(q[i + 1] == k);
                }
            }
        }
        q
    }
}

/// A map from strings to `V`, kept sorted by key.
#[derive(Debug, Clone)]
pub struct StrMap<V> {
    entries: Vec<(String, V)>,
}

impl<V> StrMap<V> {
    /// The keys, in increasing order.
    pub closed spec fn keys(&self) -> Seq<Seq<char>> {
        self.entries@.map_values(|e: (String, V)| e.0@)
    }

    /// The values, in key order.
    pub closed spec fn vals(&self) -> Seq<V> {
        self.entries@.map_values(|e: (String, V)| e.1)
    }

    /// Keys strictly increasing, one value per key.
    pub open spec fn wf(&self) -> bool {
        &&& sorted_strict(self.keys())
        &&& self.keys().len() == self.vals().len()
    }

    /// Position of key `k` among the keys.
    pub open spec fn index_of(&self, k: Seq<char>) -> int {
        choose|i: int| 0 <= i < self.keys().len() && self.keys()[i] == k
    }

    /// The map the entries describe.
    pub open spec fn view(&self) -> Map<Seq<char>, V> {
        Map::new(|k: Seq<char>| self.keys().contains(k), |k: Seq<char>| self.vals()[self.index_of(k)])
    }

    pub proof fn lemma_lens(&self)
        ensures
            self.keys().len() == self.vals().len(),
    {
    }

    /// The `i`-th key maps to the `i`-th value.
    pub proof fn lemma_view(&self)
        requires
            self.wf(),
        ensures
            forall|i: int| 0 <= i < self.keys().len() ==> self.index_of(#[trigger] self.keys()[i]) == i,
            forall|i: int| 0 <= i < self.keys().len() ==> self.view()[#[trigger] self.keys()[i]] == self.vals()[i],
            forall|k: Seq<char>| self.view().contains_key(k) <==> self.keys().contains(k),
            self.view().dom().finite(),
            self.view().dom().len() == self.keys().len(),
    {
        assert forall|i: int| 0 <= i < self.keys().len() implies self.index_of(#[trigger] self.keys()[i]) == i by {
            let k = self.keys()[i];
            assert(self.keys().contains(k));
            let j = self.index_of(k);
            if j != i {
                if j < i {
                    assert(str_lt(self.keys()[j], self.keys()[i]));
                } else {
                    assert(str_lt(self.keys()[i], self.keys()[j]));
                }
                lemma_str_lt_irreflexive(k);
            }
        }
        self.lemma_no_dup();
        assert(self.view().dom() == self.keys().to_set());
        self.keys().unique_seq_to_set();
    }

    pub proof fn lemma_no_dup(&self)
        requires
            self.wf(),
        ensures
            self.keys().no_duplicates(),
    {
        assert forall|i: int, j: int| 0 <= i < self.keys().len() && 0 <= j < self.keys().len() && i != j
            implies self.keys()[i] != self.keys()[j] by {
            if i < j {
                assert(str_lt(self.keys()[i], self.keys()[j]));
            } else {
                assert(str_lt(self.keys()[j], self.keys()[i]));
            }
            lemma_str_lt_irreflexive(self.keys()[i]);
        }
    }

    /// The keys are the map's domain in increasing order.
    pub proof fn lemma_sorted_keys(&self)
        requires
            self.wf(),
        ensures
            self.keys() == sorted_keys(self.view().dom()),
    {
        self.lemma_view();
        let s = self.view().dom();
        assert(sorted_strict(self.keys()) && forall|k: Seq<char>| self.keys().contains(k) <==> s.contains(k));
        let q = sorted_keys(s);
        lemma_sorted_unique(self.keys(), q);
    }

    /// An empty map.
    pub fn new() -> (m: Self)
        ensures
            m.wf(),
            m.keys() == Seq::<Seq<char>>::empty(),
            m.view() == Map::<Seq<char>, V>::empty(),
    {
        let m = StrMap { entries: Vec::new() };
        assert(m.keys() =~= Seq::<Seq<char>>::empty());
        assert(m.view() =~= Map::<Seq<char>, V>::empty());
        m
    }

    /// Number of entries.
    pub fn len(&self) -> (n: usize)
        ensures
            n == self.keys().len(),
            n == self.vals().len(),
    {
        self.entries.len()
    }

    /// The `i`-th key in key order.
    pub fn key_at(&self, i: usize) -> (k: &String)
        requires
            i < self.keys().len(),
        ensures
            k@ == self.keys()[i as int],
    {
        &self.entries[i].0
    }

    /// The value of the `i`-th key.
    pub fn value_at(&self, i: usize) -> (v: &V)
        requires
            i < self.keys().len(),
        ensures
            *v == self.vals()[i as int],
    {
        &self.entries[i].1
    }

    /// Replaces the value of the `i`-th key.
    pub fn set_value_at(&mut self, i: usize, v: V)
        requires
            old(self).wf(),
            i < old(self).keys().len(),
        ensures
            final(self).wf(),
            final(self).keys() == old(self).keys(),
            final(self).vals() == old(self).vals().update(i as int, v),
    {
        let ghost ok = self.keys();
        let ghost ov = self.vals();
        let ghost vv = v;
        let k = self.entries[i].0.clone();
        self.entries.set(i, (k, v));
        assert(self.keys() =~= ok);
        assert(self.vals() =~= ov.update(i as int, vv));
    }

    /// Where `k` sits, or where it would be inserted.
    fn search(&self, k: &str) -> (r: (usize, bool))
        requires
            self.wf(),
        ensures
            r.0 <= self.keys().len(),
            r.1 ==> r.0 < self.keys().len() && self.keys()[r.0 as int] == k@,
            !r.1 ==> !self.keys().contains(k@),
            !r.1 ==> forall|i: int| 0 <= i < r.0 ==> str_lt(#[trigger] self.keys()[i], k@),
            !r.1 ==> forall|i: int| r.0 <= i < self.keys().len() ==> str_lt(k@, #[trigger] self.keys()[i]),
    {
        let kc = chars_of(k);
        let mut i: usize = 0;
        while i < self.entries.len()
            invariant
                self.wf(),
                kc@ == k@,
                i <= self.keys().len(),
                forall|j: int| 0 <= j < i ==> str_lt(#[trigger] self.keys()[j], k@),
            decreases self.entries.len() - i,
        {
            let ek = chars_of(self.entries[i].0.as_str());
            assert(ek@ == self.keys()[i as int]);
            if !chars_less(&ek, &kc) {
                if !chars_less(&kc, &ek) {
                    proof {
                        lemma_str_lt_total(ek@, kc@);
                    }
                    return (i, true);
                }
                proof {
                    assert forall|j: int| i <= j < self.keys().len() implies str_lt(k@, #[trigger] self.keys()[j]) by {
                        if j > i {
                            lemma_str_lt_transitive(k@, self.keys()[i as int], self.keys()[j]);
                        }
                    }
                    assert forall|j: int| 0 <= j < self.keys().len() implies self.keys()[j] != k@ by {
                        if j < i {
                            lemma_str_lt_irreflexive(k@);
                        } else {
                            lemma_str_lt_irreflexive(k@);
                        }
                    }
                }
                return (i, false);
            }
            i = i + 1;
        }
        proof {
            assert forall|j: int| 0 <= j < self.keys().len() implies self.keys()[j] != k@ by {
                lemma_str_lt_irreflexive(k@);
            }
        }
        (i, false)
    }

    /// The value stored under `k`.
    pub fn get(&self, k: &str) -> (r: Option<&V>)
        requires
            self.wf(),
        ensures
            r is Some <==> self.view().contains_key(k@),
            r is Some ==> *r->0 == self.view()[k@],
    {
        proof {
            self.lemma_view();
        }
        let (i, found) = self.search(k);
        if found {
            Some(&self.entries[i].1)
        } else {
            None
        }
    }

    /// Whether `k` has an entry.
    pub fn contains_key(&self, k: &str) -> (r: bool)
        requires
            self.wf(),
        ensures
            r == self.view().contains_key(k@),
    {
        proof {
            self.lemma_view();
        }
        let (_, found) = self.search(k);
        found
    }

    /// Stores `v` under `k`, replacing any previous value.
    pub fn insert(&mut self, k: String, v: V)
        requires
            old(self).wf(),
        ensures
            final(self).wf(),
            final(self).view() == old(self).view().insert(k@, v),
    {
        proof {
            old(self).lemma_view();
        }
        let (i, found) = self.search(k.as_str());
        let ghost kk = k@;
        let ghost vv = v;
        let ghost ok = self.keys();
        let ghost ov = self.vals();
        if found {
            self.entries.set(i, (k, v));
            assert(self.keys() =~= ok.update(i as int, kk));
            assert(self.vals() =~= ov.update(i as int, vv));
        } else {
            self.entries.insert(i, (k, v));
            assert(self.keys() =~= ok.insert(i as int, kk));
            assert(self.vals() =~= ov.insert(i as int, vv));
        }
        proof {
            assert(sorted_strict(self.keys()));
            self.lemma_view();
            assert forall|q: Seq<char>| self.view().contains_key(q) <==> old(self).view().insert(kk, vv).contains_key(q) by {
                if self.keys().contains(q) {
                    let j = choose|j: int| 0 <= j < self.keys().len() && self.keys()[j] == q;
                    if q != kk {
                        if found {
                            assert(ok[j] == q);
                        } else if j < i {
                            assert(ok[j] == q);
                        } else {
                            assert(ok[j - 1] == q);
                        }
                    }
                }
                if old(self).keys().contains(q) {
                    let j = choose|j: int| 0 <= j < ok.len() && ok[j] == q;
                    if found {
                        if j != i {
                            assert(self.keys()[j] == q);
                        }
                    } else if j < i {
                        assert(self.keys()[j] == q);
                    } else {
                        assert(self.keys()[j + 1] == q);
                    }
                }
                if q == kk {
                    assert(self.keys()[i as int] == kk);
                }
            }
            assert forall|q: Seq<char>| #[trigger] self.view().contains_key(q) implies self.view()[q] == old(self).view().insert(kk, vv)[q] by {
                let j = choose|j: int| 0 <= j < self.keys().len() && self.keys()[j] == q;
                assert(self.view()[q] == self.vals()[j]);
                if q != kk {
                    if found {
                        assert(old(self).view()[ok[j]] == ov[j]);
                    } else if j < i {
                        assert(old(self).view()[ok[j]] == ov[j]);
                    } else {
                        assert(old(self).view()[ok[j - 1]] == ov[j - 1]);
                    }
                } else {
                    if j != i {
                        assert(self.keys().no_duplicates()) by { self.lemma_no_dup(); }
                    }
                }
            }
            assert(self.view() =~= old(self).view().insert(kk, vv));
        }
    }

    /// Removes the entry for `k`, giving back its value.
    pub fn remove(&mut self, k: &str) -> (r: Option<V>)
        requires
            old(self).wf(),
        ensures
            final(self).wf(),
            final(self).view() == old(self).view().remove(k@),
            r is Some <==> old(self).view().contains_key(k@),
            r is Some ==> r->0 == old(self).view()[k@],
    {
        proof {
            old(self).lemma_view();
        }
        let (i, found) = self.search(k);
        if !found {
            assert(self.view() =~= old(self).view().remove(k@));
            return None;
        }
        let ghost ok = self.keys();
        let ghost ov = self.vals();
        let e = self.entries.remove(i);
        assert(self.keys() =~= ok.remove(i as int));
        assert(self.vals() =~= ov.remove(i as int));
        proof {
            assert(sorted_strict(self.keys()));
            self.lemma_view();
            old(self).lemma_no_dup();
            assert forall|q: Seq<char>| self.view().contains_key(q) <==> old(self).view().remove(k@).contains_key(q) by {
                if self.keys().contains(q) {
                    let j = choose|j: int| 0 <= j < self.keys().len() && self.keys()[j] == q;
                    if j < i {
                        assert(ok[j] == q);
                    } else {
                        assert(ok[j + 1] == q);
                    }
                }
                if old(self).keys().contains(q) && q != k@ {
                    let j = choose|j: int| 0 <= j < ok.len() && ok[j] == q;
                    if j < i {
                        assert(self.keys()[j] == q);
                    } else {
                        assert(self.keys()[j - 1] == q);
                    }
                }
            }
            assert forall|q: Seq<char>| #[trigger] self.view().contains_key(q) implies self.view()[q] == old(self).view().remove(k@)[q] by {
                let j = choose|j: int| 0 <= j < self.keys().len() && self.keys()[j] == q;
                if j < i {
                    assert(old(self).view()[ok[j]] == ov[j]);
                } else {
                    assert(old(self).view()[ok[j + 1]] == ov[j + 1]);
                }
            }
            assert(self.view() =~= old(self).view().remove(k@));
        }
        Some(e.1)
    }
}

} // verus!
