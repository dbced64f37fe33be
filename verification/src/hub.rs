//! The fleet agent: a machine that cannot run the desktop app applies its
//! pins from the basin and reports back. Its configuration, and where each
//! tool's skills live on the machine it speaks for.

use vstd::prelude::*;
use crate::strmap::StrMap;
use crate::agents::ResolvedAdapter;

verus! {

/// Local agent configuration (kept outside the basin).
#[derive(Debug)]
pub struct AgentConfig {
    /// Git URL (or local path) of the basin repository.
    pub repo: String,
    /// Which machine's pins this agent applies (`machines/<id>/`).
    pub machine: String,
    /// Where the basin clone lives on this machine.
    pub basin_dir: String,
    /// Per-machine tool directory overrides; an entry here always wins.
    pub tool_dirs: StrMap<String>,
}

/// The skills directory of every enabled adapter that has one, by key; a
/// later adapter with the same key wins.
pub open spec fn adapter_dirs(adapters: Seq<ResolvedAdapter>) -> Map<Seq<char>, String>
    decreases adapters.len(),
{
    if adapters.len() == 0 {
        Map::empty()
    } else {
        let m = adapter_dirs(adapters.drop_last());
        let a = adapters.last();
        if a.enabled && a.skills_dir is Some {
            m.insert(a.key@, a.skills_dir->0)
        } else {
            m
        }
    }
}

/// Where each tool's skills live on this machine: the resolved adapters
/// first, then the configuration's overrides on top.
pub fn resolve_tool_dirs(adapters: &Vec<ResolvedAdapter>, overrides: &StrMap<String>) -> (dirs: StrMap<String>)
    requires
        overrides.wf(),
    ensures
        dirs.wf(),
        dirs@ == adapter_dirs(adapters@).union_prefer_right(overrides@),
{
    let mut dirs: StrMap<String> = StrMap::new();
    let mut i: usize = 0;
    while i < adapters.len()
        invariant
            i <= adapters@.len(),
            dirs.wf(),
            dirs@ == adapter_dirs(adapters@.subrange(0, i as int)),
        decreases adapters.len() - i,
    {
        let a = &adapters[i];
        assert(adapters@.subrange(0, i + 1).drop_last() == adapters@.subrange(0, i as int));
        if a.enabled {
            if let Some(d) = &a.skills_dir {
                dirs.insert(a.key.clone(), d.clone());
            }
        }
        i = i + 1;
    }
    assert(adapters@.subrange(0, adapters@.len() as int) == adapters@);
    let ghost base = dirs@;
    proof {
        overrides.lemma_view();
    }
    let n = overrides.len();
    let mut j: usize = 0;
    while j < n
        invariant
            n == overrides.keys().len(),
            overrides.wf(),
            j <= n,
            dirs.wf(),
            forall|i: int| 0 <= i < overrides.keys().len() ==> overrides@[#[trigger] overrides.keys()[i]] == overrides.vals()[i],
            forall|k: Seq<char>| #[trigger] dirs@.contains_key(k)
                <==> (base.contains_key(k) || exists|t: int| 0 <= t < j && overrides.keys()[t] == k),
            forall|t: int| 0 <= t < j ==> dirs@[#[trigger] overrides.keys()[t]] == overrides.vals()[t],
            forall|k: Seq<char>| #[trigger] dirs@.contains_key(k) && !(exists|t: int| 0 <= t < j && overrides.keys()[t] == k)
                ==> dirs@[k] == base[k],
        decreases n - j,
    {
        let k = overrides.key_at(j);
        let v = overrides.value_at(j);
        proof {
            overrides.lemma_no_dup();
        }
        dirs.insert(k.clone(), v.clone());
        j = j + 1;
    }
    proof {
        let target = base.union_prefer_right(overrides@);
        assert forall|k: Seq<char>| #[trigger] dirs@.contains_key(k) <==> target.contains_key(k) by {
            if exists|t: int| 0 <= t < n && overrides.keys()[t] == k {
                let t = choose|t: int| 0 <= t < n && overrides.keys()[t] == k;
                assert(overrides@.contains_key(overrides.keys()[t]));
            }
            if overrides@.contains_key(k) {
                let t = choose|t: int| 0 <= t < overrides.keys().len() && overrides.keys()[t] == k;
                assert(exists|t2: int| 0 <= t2 < n && overrides.keys()[t2] == k);
            }
        }
        assert forall|k: Seq<char>| #[trigger] dirs@.contains_key(k) implies dirs@[k] == target[k] by {
            if overrides@.contains_key(k) {
                let t = choose|t: int| 0 <= t < overrides.keys().len() && overrides.keys()[t] == k;
                assert(dirs@[overrides.keys()[t]] == overrides.vals()[t]);
            } else {
                if exists|t: int| 0 <= t < n && overrides.keys()[t] == k {
                    let t = choose|t: int| 0 <= t < n && overrides.keys()[t] == k;
                    assert(overrides@.contains_key(overrides.keys()[t]));
                }
            }
        }
        assert(dirs@ =~= target);
    }
    dirs
}

} // verus!
