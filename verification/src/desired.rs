//! What the pin changes do to each tool's desired state: the laws that tie
//! `set_pin`, `unset_pin` and `set_pins_enabled` to the planner's view of a
//! machine (`desired_for`).

use vstd::prelude::*;
use crate::pins::{
    EntryView, PinTarget, has_targets, targeted, unpinned, moved_off, pruned_for_set, find_entry, spec_set_pin, spec_unset_pin, with_enabled,
    spec_set_pins_enabled,
};
use crate::plan::desired_for;

verus! {

/// What an entry asks of `tool`: its version and strategy, when it has an
/// enabled target for that tool.
pub open spec fn contribution(e: EntryView, tool: Seq<char>) -> Option<(Seq<char>, Seq<char>)> {
    if e.2.contains_key(tool) && e.2[tool].enabled {
        Some((e.1, e.2[tool].strategy@))
    } else {
        None
    }
}

/// No two entries pin the same skill at the same version (what `set_pin`
/// keeps).
pub open spec fn unique_entries(es: Seq<EntryView>) -> bool {
    forall|i: int, j: int| 0 <= i < j < es.len() ==> !(#[trigger] es[i].0 == #[trigger] es[j].0 && es[i].1 == es[j].1)
}

proof fn lemma_desired_step(es: Seq<EntryView>, tool: Seq<char>)
    requires
        es.len() > 0,
    ensures
        desired_for(es, tool) == match contribution(es.last(), tool) {
            Some(v) => desired_for(es.drop_last(), tool).insert(es.last().0, v),
            None => desired_for(es.drop_last(), tool),
        },
{
}

/// Entries that ask the same of `tool`, skill by skill, give the same
/// desired state apart from `skill`.
proof fn lemma_desired_alike(a: Seq<EntryView>, b: Seq<EntryView>, tool: Seq<char>, skill: Seq<char>)
    requires
        a.len() == b.len(),
        forall|i: int| 0 <= i < a.len() ==> (#[trigger] a[i]).0 == b[i].0,
        forall|i: int| 0 <= i < a.len() && a[i].0 != skill ==> contribution(#[trigger] a[i], tool) == contribution(b[i], tool),
    ensures
        desired_for(a, tool).remove(skill) == desired_for(b, tool).remove(skill),
    decreases a.len(),
{
    if a.len() > 0 {
        let n = a.len() - 1;
        assert forall|i: int| 0 <= i < n implies (#[trigger] a.drop_last()[i]).0 == b.drop_last()[i].0 by {
            assert(a.drop_last()[i] == a[i] && b.drop_last()[i] == b[i]);
        }
        assert forall|i: int| 0 <= i < n && a.drop_last()[i].0 != skill implies contribution(
            #[trigger] a.drop_last()[i],
            tool,
        ) == contribution(b.drop_last()[i], tool) by {
            assert(a.drop_last()[i] == a[i] && b.drop_last()[i] == b[i]);
        }
        lemma_desired_alike(a.drop_last(), b.drop_last(), tool, skill);
        lemma_desired_step(a, tool);
        lemma_desired_step(b, tool);
        assert(a[n].0 == b[n].0);
        let da = desired_for(a.drop_last(), tool);
        let db = desired_for(b.drop_last(), tool);
        if a[n].0 == skill {
            match contribution(a.last(), tool) {
                Some(v) => {
                    assert(da.insert(skill, v).remove(skill) =~= da.remove(skill));
                },
                None => {},
            }
            match contribution(b.last(), tool) {
                Some(v) => {
                    assert(db.insert(skill, v).remove(skill) =~= db.remove(skill));
                },
                None => {},
            }
        } else {
            assert(contribution(a[n], tool) == contribution(b[n], tool));
            match contribution(a.last(), tool) {
                Some(v) => {
                    assert(da.insert(a[n].0, v).remove(skill) =~= da.remove(skill).insert(a[n].0, v));
                    assert(db.insert(a[n].0, v).remove(skill) =~= db.remove(skill).insert(a[n].0, v));
                },
                None => {},
            }
        }
    }
}

/// When no entry of `skill` asks anything of `tool`, `skill` is not desired there.
proof fn lemma_desired_without(es: Seq<EntryView>, tool: Seq<char>, skill: Seq<char>)
    requires
        forall|i: int| 0 <= i < es.len() && (#[trigger] es[i]).0 == skill ==> contribution(es[i], tool) is None,
    ensures
        !desired_for(es, tool).contains_key(skill),
    decreases es.len(),
{
    if es.len() > 0 {
        assert forall|i: int| 0 <= i < es.len() - 1 && (#[trigger] es.drop_last()[i]).0 == skill implies contribution(
            es.drop_last()[i],
            tool,
        ) is None by {
            assert(es.drop_last()[i] == es[i]);
        }
        lemma_desired_without(es.drop_last(), tool, skill);
        lemma_desired_step(es, tool);
        assert(es.last() == es[es.len() - 1]);
    }
}

/// When the last entry of `skill` that asks anything of `tool` sits at `k`,
/// `skill` is desired there as that entry asks.
proof fn lemma_desired_last(es: Seq<EntryView>, tool: Seq<char>, skill: Seq<char>, k: int)
    requires
        0 <= k < es.len(),
        es[k].0 == skill,
        contribution(es[k], tool) is Some,
        forall|i: int| k < i < es.len() && (#[trigger] es[i]).0 == skill ==> contribution(es[i], tool) is None,
    ensures
        desired_for(es, tool).contains_key(skill),
        desired_for(es, tool)[skill] == contribution(es[k], tool)->0,
    decreases es.len(),
{
    lemma_desired_step(es, tool);
    if k == es.len() - 1 {
    } else {
        assert forall|i: int| k < i < es.len() - 1 && (#[trigger] es.drop_last()[i]).0 == skill implies contribution(
            es.drop_last()[i],
            tool,
        ) is None by {
            assert(es.drop_last()[i] == es[i]);
        }
        assert(es.drop_last()[k] == es[k]);
        lemma_desired_last(es.drop_last(), tool, skill, k);
        assert(es.last() == es[es.len() - 1]);
    }
}

/// Dropping entries without targets changes no tool's desired state.
proof fn lemma_desired_filter(es: Seq<EntryView>, f: spec_fn(EntryView) -> bool, tool: Seq<char>)
    requires
        forall|e: EntryView| #[trigger] f(e) == has_targets(e),
    ensures
        desired_for(es.filter(f), tool) == desired_for(es, tool),
    decreases es.len(),
{
    reveal(Seq::filter);
    if es.len() > 0 {
        lemma_desired_filter(es.drop_last(), f, tool);
        lemma_desired_step(es, tool);
        if !f(es.last()) {
            assert(!es.last().2.contains_key(tool)) by {
                if es.last().2.contains_key(tool) {
                    assert(es.last().2.dom().contains(tool));
                }
            }
        } else {
            let fl = es.filter(f);
            assert(fl == es.drop_last().filter(f).push(es.last()));
            assert(fl.drop_last() == es.drop_last().filter(f));
            lemma_desired_step(fl, tool);
        }
    }
}

/// Entries of a filtered list come from the list, in order: positions in
/// the filtered list map to strictly increasing positions in the unfiltered one.
proof fn lemma_filter_positions(es: Seq<EntryView>, f: spec_fn(EntryView) -> bool) -> (pos: Seq<int>)
    ensures
        pos.len() == es.filter(f).len(),
        forall|i: int| 0 <= i < pos.len() ==> 0 <= #[trigger] pos[i] < es.len() && es.filter(f)[i] == es[pos[i]],
        forall|i: int, j: int| 0 <= i < j < pos.len() ==> #[trigger] pos[i] < #[trigger] pos[j],
    decreases es.len(),
{
    reveal(Seq::filter);
    if es.len() == 0 {
        Seq::empty()
    } else {
        let p = lemma_filter_positions(es.drop_last(), f);
        let fl = es.filter(f);
        let fd = es.drop_last().filter(f);
        assert forall|i: int| 0 <= i < p.len() implies 0 <= #[trigger] p[i] < es.len() && fd[i] == es[p[i]] by {
            assert(es.drop_last()[p[i]] == es[p[i]]);
        }
        if f(es.last()) {
            let q = p.push(es.len() - 1);
            assert(fl == fd.push(es.last()));
            assert forall|i: int| 0 <= i < q.len() implies 0 <= #[trigger] q[i] < es.len() && fl[i] == es[q[i]] by {
                if i < p.len() {
                    assert(q[i] == p[i]);
                }
            }
            assert forall|i: int, j: int| 0 <= i < j < q.len() implies #[trigger] q[i] < #[trigger] q[j] by {
                if j < p.len() {
                    assert(q[i] == p[i] && q[j] == p[j]);
                }
            }
            q
        } else {
            p
        }
    }
}

/// Disabling every pin of a skill takes it out of every tool's desired
/// state and leaves the other skills alone: a disabled target counts as
/// unpinned.
pub proof fn law_disable_unpins(es: Seq<EntryView>, skill: Seq<char>, tool: Seq<char>)
    ensures
        desired_for(spec_set_pins_enabled(es, skill, false), tool) == desired_for(es, tool).remove(skill),
        desired_for(spec_set_pins_enabled(es, skill, true), tool).remove(skill) == desired_for(es, tool).remove(skill),
{
    let off = spec_set_pins_enabled(es, skill, false);
    let on = spec_set_pins_enabled(es, skill, true);
    assert forall|i: int| 0 <= i < off.len() && (#[trigger] off[i]).0 == skill implies contribution(off[i], tool) is None by {
        if off[i].2.contains_key(tool) {
            assert(off[i].2[tool] == with_enabled(es[i].2[tool], false));
        }
    }
    lemma_desired_without(off, tool, skill);
    lemma_desired_alike(off, es, tool, skill);
    assert(desired_for(off, tool).remove(skill) =~= desired_for(off, tool));
    lemma_desired_alike(on, es, tool, skill);
}

/// Disabling a skill's pins and enabling them again gives back the pins,
/// when they were all enabled before.
pub proof fn law_reenable_restores(es: Seq<EntryView>, skill: Seq<char>)
    requires
        forall|i: int, t: Seq<char>| 0 <= i < es.len() && es[i].0 == skill && #[trigger] es[i].2.contains_key(t)
            ==> es[i].2[t].enabled,
    ensures
        spec_set_pins_enabled(spec_set_pins_enabled(es, skill, false), skill, true) == es,
{
    let off = spec_set_pins_enabled(es, skill, false);
    let back = spec_set_pins_enabled(off, skill, true);
    assert forall|i: int| 0 <= i < es.len() implies #[trigger] back[i] == es[i] by {
        if es[i].0 == skill {
            let m = es[i].2;
            let m2 = back[i].2;
            assert forall|t: Seq<char>| #[trigger] m2.contains_key(t) implies m2[t] == m[t] by {
                assert(m[t].enabled);
            }
            assert(m2 =~= m);
        }
    }
    assert(back =~= es);
}

/// `unset_pin` takes the skill out of the tool's desired state and changes
/// nothing else: not the other skills for that tool, not any other tool.
pub proof fn law_unset_pin_unpins(es: Seq<EntryView>, skill: Seq<char>, tool: Seq<char>, other: Seq<char>)
    requires
        other != tool,
    ensures
        desired_for(spec_unset_pin(es, skill, tool), tool) == desired_for(es, tool).remove(skill),
        desired_for(spec_unset_pin(es, skill, tool), other) == desired_for(es, other),
{
    let f = targeted();
    let mapped = es.map_values(unpinned(skill, tool));
    assert(spec_unset_pin(es, skill, tool) == mapped.filter(f));
    lemma_desired_filter(mapped, f, tool);
    lemma_desired_filter(mapped, f, other);
    assert forall|i: int| 0 <= i < mapped.len() && (#[trigger] mapped[i]).0 == skill implies contribution(
        mapped[i],
        tool,
    ) is None by {}
    lemma_desired_without(mapped, tool, skill);
    lemma_desired_alike(mapped, es, tool, skill);
    assert(desired_for(mapped, tool).remove(skill) =~= desired_for(mapped, tool));
    assert forall|i: int| 0 <= i < mapped.len() implies contribution(#[trigger] mapped[i], other) == contribution(
        es[i],
        other,
    ) by {
        if es[i].0 == skill {
            assert(mapped[i].2.contains_key(other) == es[i].2.contains_key(other));
        }
    }
    lemma_desired_same(mapped, es, other);
}

/// Entries that ask the same of `tool` give the same desired state.
proof fn lemma_desired_same(a: Seq<EntryView>, b: Seq<EntryView>, tool: Seq<char>)
    requires
        a.len() == b.len(),
        forall|i: int| 0 <= i < a.len() ==> (#[trigger] a[i]).0 == b[i].0,
        forall|i: int| 0 <= i < a.len() ==> contribution(#[trigger] a[i], tool) == contribution(b[i], tool),
    ensures
        desired_for(a, tool) == desired_for(b, tool),
    decreases a.len(),
{
    if a.len() > 0 {
        let n = a.len() - 1;
        assert forall|i: int| 0 <= i < n implies (#[trigger] a.drop_last()[i]).0 == b.drop_last()[i].0 by {
            assert(a.drop_last()[i] == a[i] && b.drop_last()[i] == b[i]);
        }
        assert forall|i: int| 0 <= i < n implies contribution(#[trigger] a.drop_last()[i], tool) == contribution(
            b.drop_last()[i],
            tool,
        ) by {
            assert(a.drop_last()[i] == a[i] && b.drop_last()[i] == b[i]);
        }
        lemma_desired_same(a.drop_last(), b.drop_last(), tool);
        lemma_desired_step(a, tool);
        lemma_desired_step(b, tool);
        assert(a[n].0 == b[n].0);
        assert(contribution(a[n], tool) == contribution(b[n], tool));
    }
}

proof fn lemma_find_entry(es: Seq<EntryView>, skill: Seq<char>, version: Seq<char>)
    ensures
        find_entry(es, skill, version) matches Some(i) ==> 0 <= i < es.len() && es[i].0 == skill && es[i].1 == version,
        find_entry(es, skill, version) is None ==> forall|j: int| 0 <= j < es.len() ==> !(#[trigger] es[j].0 == skill && es[j].1 == version),
    decreases es.len(),
{
    if es.len() > 0 {
        lemma_find_entry(es.drop_last(), skill, version);
        assert(es.last() == es[es.len() - 1]);
        if find_entry(es, skill, version) is None {
            assert forall|j: int| 0 <= j < es.len() implies !(#[trigger] es[j].0 == skill && es[j].1 == version) by {
                if j < es.len() - 1 {
                    assert(es.drop_last()[j] == es[j]);
                }
            }
        }
    }
}

/// `set_pin` changes nothing for the other tools and nothing for the other
/// skills of its tool. On pins where each skill@version has one entry (as
/// `set_pin` keeps them), it leaves the skill desired for the tool exactly
/// as pinned, or not at all when the new target is disabled.
pub proof fn law_set_pin_pins(
    es: Seq<EntryView>,
    skill: Seq<char>,
    version: Seq<char>,
    tool: Seq<char>,
    target: PinTarget,
    other: Seq<char>,
)
    requires
        other != tool,
    ensures
        desired_for(spec_set_pin(es, skill, version, tool, target), other) == desired_for(es, other),
        desired_for(spec_set_pin(es, skill, version, tool, target), tool).remove(skill) == desired_for(es, tool).remove(
            skill,
        ),
        unique_entries(es) ==> unique_entries(spec_set_pin(es, skill, version, tool, target)),
        unique_entries(es) && target.enabled ==> desired_for(spec_set_pin(es, skill, version, tool, target), tool).contains_key(skill)
            && desired_for(spec_set_pin(es, skill, version, tool, target), tool)[skill] == (version, target.strategy@),
        unique_entries(es) && !target.enabled ==> !desired_for(spec_set_pin(es, skill, version, tool, target), tool).contains_key(skill),
{
    let f = targeted();
    let m = es.map_values(moved_off(skill, version, tool));
    let p = m.filter(f);
    assert(pruned_for_set(es, skill, version, tool) == p);
    let res = spec_set_pin(es, skill, version, tool, target);
    // The pruned entries.
    lemma_desired_filter(m, f, tool);
    lemma_desired_filter(m, f, other);
    assert forall|i: int| 0 <= i < m.len() implies contribution(#[trigger] m[i], other) == contribution(es[i], other) by {
        if es[i].0 == skill && es[i].1 != version {
            assert(m[i].2.contains_key(other) == es[i].2.contains_key(other));
        }
    }
    lemma_desired_same(m, es, other);
    lemma_desired_alike(m, es, tool, skill);
    let pos = lemma_filter_positions(m, f);
    assert forall|j: int| 0 <= j < p.len() && (#[trigger] p[j]).0 == skill && p[j].1 != version
        implies !p[j].2.contains_key(tool) by {
        assert(p[j] == m[pos[j]]);
    }
    lemma_find_entry(p, skill, version);
    let new_entry = (skill, version, Map::<Seq<char>, PinTarget>::empty().insert(tool, target));
    match find_entry(p, skill, version) {
        Some(i) => {
            let ne = (p[i].0, p[i].1, p[i].2.insert(tool, target));
            assert(res == p.update(i, ne));
            assert forall|j: int| 0 <= j < res.len() implies contribution(#[trigger] res[j], other) == contribution(p[j], other) by {
                if j == i {
                    assert(res[j].2.contains_key(other) == p[j].2.contains_key(other));
                }
            }
            lemma_desired_same(res, p, other);
            lemma_desired_alike(res, p, tool, skill);
            if unique_entries(es) {
                assert(unique_entries(p)) by {
                    assert forall|a: int, b: int| 0 <= a < b < p.len() implies !(#[trigger] p[a].0 == #[trigger] p[b].0 && p[a].1 == p[b].1) by {
                        assert(p[a] == m[pos[a]] && p[b] == m[pos[b]]);
                        assert(pos[a] < pos[b]);
                    }
                }
                assert(unique_entries(res)) by {
                    assert forall|a: int, b: int| 0 <= a < b < res.len() implies !(#[trigger] res[a].0 == #[trigger] res[b].0 && res[a].1 == res[b].1) by {
                        assert(res[a].0 == p[a].0 && res[a].1 == p[a].1);
                        assert(res[b].0 == p[b].0 && res[b].1 == p[b].1);
                    }
                }
                assert forall|j: int| 0 <= j < res.len() && j != i && (#[trigger] res[j]).0 == skill implies contribution(res[j], tool) is None by {
                    assert(res[j] == p[j]);
                    if p[j].1 == version {
                        if j < i {
                            assert(!(p[j].0 == p[i].0 && p[j].1 == p[i].1));
                        } else {
                            assert(!(p[i].0 == p[j].0 && p[i].1 == p[j].1));
                        }
                    }
                }
                if target.enabled {
                    lemma_desired_last(res, tool, skill, i);
                } else {
                    assert forall|j: int| 0 <= j < res.len() && (#[trigger] res[j]).0 == skill implies contribution(res[j], tool) is None by {
                        if j == i {
                            assert(res[j].2[tool] == target);
                        }
                    }
                    lemma_desired_without(res, tool, skill);
                }
            }
        },
        None => {
            assert(res == p.push(new_entry));
            lemma_desired_step(res, tool);
            lemma_desired_step(res, other);
            assert(res.drop_last() == p);
            assert(res.last() == new_entry);
            assert(!new_entry.2.contains_key(other));
            let dp = desired_for(p, tool);
            if target.enabled {
                assert(dp.insert(skill, (version, target.strategy@)).remove(skill) =~= dp.remove(skill));
            }
            if unique_entries(es) {
                assert(unique_entries(res)) by {
                    assert forall|a: int, b: int| 0 <= a < b < res.len() implies !(#[trigger] res[a].0 == #[trigger] res[b].0 && res[a].1 == res[b].1) by {
                        if b == p.len() {
                            assert(res[a] == p[a]);
                        } else {
                            assert(res[a] == p[a] && res[b] == p[b]);
                            assert(p[a] == m[pos[a]] && p[b] == m[pos[b]]);
                            assert(pos[a] < pos[b]);
                        }
                    }
                }
                assert forall|j: int| 0 <= j < p.len() && (#[trigger] p[j]).0 == skill implies contribution(p[j], tool) is None by {
                    assert(!(p[j].0 == skill && p[j].1 == version));
                }
                if target.enabled {
                    assert forall|j: int| p.len() < j < res.len() && (#[trigger] res[j]).0 == skill implies contribution(res[j], tool) is None by {}
                    lemma_desired_last(res, tool, skill, p.len() as int);
                } else {
                    assert forall|j: int| 0 <= j < res.len() && (#[trigger] res[j]).0 == skill implies contribution(res[j], tool) is None by {
                        if j < p.len() {
                            assert(res[j] == p[j]);
                        }
                    }
                    lemma_desired_without(res, tool, skill);
                }
            }
        },
    }
}

} // verus!
