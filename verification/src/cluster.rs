//! The in-memory cluster model: resource trees assembled from
//! configuration, hosts keyed by their stable identity, and the
//! enumeration the control channel reports.

use crate::config;
use crate::config::{cres_model, entries_model, ConfigResourceModel};
use crate::host::{host_built_ok, Host};
use crate::manager::MgrContext;
use crate::resource::{
    clone_params, key_lt, params_model, OutcomeTree, Resource, ResourceGroup, ResourceModel,
    ResourceStatus,
};
use crate::strutil::{str_eq, str_le};
use vstd::multiset::Multiset;
use vstd::prelude::*;

verus! {

/// Insert an entry behind every entry whose key is not above its own.
pub open spec fn insert_entry_sorted(
    p: (Seq<char>, ConfigResourceModel),
    s: Seq<(Seq<char>, ConfigResourceModel)>,
) -> Seq<(Seq<char>, ConfigResourceModel)>
    decreases s.len(),
{
    if s.len() == 0 {
        seq![p]
    } else if key_lt(p.0, s[0].0) {
        seq![p] + s
    } else {
        seq![s[0]] + insert_entry_sorted(p, s.skip(1))
    }
}

/// The first `i` entries, sorted by key via repeated insertion.
pub open spec fn sort_entries_prefix(s: Seq<(Seq<char>, ConfigResourceModel)>, i: int) -> Seq<
    (Seq<char>, ConfigResourceModel),
>
    decreases i,
{
    if i <= 0 {
        Seq::empty()
    } else {
        insert_entry_sorted(s[i - 1], sort_entries_prefix(s, i - 1))
    }
}

/// A host's resource entries in canonical order: sorted by identifier.
/// Assembly works on this order, so the built trees do not depend on the
/// order the entries were written in.
pub open spec fn sort_entries_spec(s: Seq<(Seq<char>, ConfigResourceModel)>) -> Seq<
    (Seq<char>, ConfigResourceModel),
> {
    sort_entries_prefix(s, s.len() as int)
}

/// Inserting at the first position whose key lies strictly above the new
/// key realises `insert_entry_sorted`.
proof fn lemma_insert_entry_sorted_at(
    p: (Seq<char>, ConfigResourceModel),
    s: Seq<(Seq<char>, ConfigResourceModel)>,
    j: int,
)
    requires
        0 <= j <= s.len(),
        forall|t: int| 0 <= t < j ==> !key_lt(p.0, (#[trigger] s[t]).0),
        j < s.len() ==> key_lt(p.0, s[j].0),
    ensures
        insert_entry_sorted(p, s) == s.take(j) + seq![p] + s.skip(j),
    decreases s.len(),
{
    if s.len() == 0 {
        assert(insert_entry_sorted(p, s) =~= s.take(j) + seq![p] + s.skip(j));
    } else if key_lt(p.0, s[0].0) {
        assert(j == 0);
        assert(insert_entry_sorted(p, s) =~= s.take(0) + seq![p] + s.skip(0));
    } else {
        assert(j >= 1);
        assert(forall|t: int| 0 <= t < j - 1 ==> s.skip(1)[t] == s[t + 1]);
        lemma_insert_entry_sorted_at(p, s.skip(1), j - 1);
        assert(insert_entry_sorted(p, s) == seq![s[0]] + (s.skip(1).take(j - 1) + seq![p] + s.skip(
            1,
        ).skip(j - 1)));
        assert(s.skip(1).take(j - 1) =~= s.take(j).skip(1));
        assert(s.skip(1).skip(j - 1) =~= s.skip(j));
        assert(seq![s[0]] + (s.take(j).skip(1) + seq![p] + s.skip(j)) =~= s.take(j) + seq![p]
            + s.skip(j));
    }
}

/// A copy of one configuration entry.
fn clone_entry(e: &(String, config::Resource)) -> (r: (String, config::Resource))
    ensures
        r.0@ == e.0@,
        cres_model(r.1) == cres_model(e.1),
{
    let req = match &e.1.requires {
        Some(q) => Some(q.clone()),
        None => None,
    };
    (
        e.0.clone(),
        config::Resource {
            kind: e.1.kind.clone(),
            parameters: clone_params(&e.1.parameters),
            requires: req,
        },
    )
}

fn insert_entry(acc: &mut Vec<(String, config::Resource)>, p: (String, config::Resource))
    ensures
        entries_model(final(acc)@) == insert_entry_sorted(
            (p.0@, cres_model(p.1)),
            entries_model(old(acc)@),
        ),
{
    let ghost old_model = entries_model(acc@);
    let ghost pm = (p.0@, cres_model(p.1));
    let mut j: usize = 0;
    while j < acc.len()
        invariant
            0 <= j <= acc@.len(),
            old_model == entries_model(acc@),
            old_model == entries_model(old(acc)@),
            pm == (p.0@, cres_model(p.1)),
            forall|t: int| 0 <= t < j ==> !key_lt(pm.0, (#[trigger] old_model[t]).0),
        decreases acc@.len() - j,
    {
        let le = str_le(p.0.as_str(), acc[j].0.as_str());
        let eq = str_eq(p.0.as_str(), acc[j].0.as_str());
        if le && !eq {
            let ghost prev = acc@;
            let ghost pv = p;
            proof {
                assert(old_model[j as int].0 == acc@[j as int].0@);
                assert(key_lt(pm.0, old_model[j as int].0));
                lemma_insert_entry_sorted_at(pm, old_model, j as int);
            }
            acc.insert(j, p);
            proof {
                let jj = j as int;
                let lhs = entries_model(acc@);
                let tgt = old_model.take(jj) + seq![pm] + old_model.skip(jj);
                assert(acc@ =~= prev.take(jj) + seq![pv] + prev.skip(jj));
                assert forall|i: int| 0 <= i < lhs.len() implies lhs[i] == tgt[i] by {
                    assert(lhs[i] == (acc@[i].0@, cres_model(acc@[i].1)));
                    if i < jj {
                        assert(acc@[i] == prev.take(jj)[i]);
                        assert(prev.take(jj)[i] == prev[i]);
                        assert(tgt[i] == old_model.take(jj)[i]);
                        assert(old_model.take(jj)[i] == old_model[i]);
                        assert(old_model[i] == (prev[i].0@, cres_model(prev[i].1)));
                    } else if i == jj {
                        assert(acc@[i] == pv);
                        assert(tgt[i] == pm);
                    } else {
                        assert(acc@[i] == prev.skip(jj)[i - jj - 1]);
                        assert(prev.skip(jj)[i - jj - 1] == prev[i - 1]);
                        assert(tgt[i] == old_model.skip(jj)[i - jj - 1]);
                        assert(old_model.skip(jj)[i - jj - 1] == old_model[i - 1]);
                        assert(old_model[i - 1] == (prev[i - 1].0@, cres_model(prev[i - 1].1)));
                    }
                }
                assert(lhs =~= tgt);
            }
            return ;
        }
        proof {
            assert(old_model[j as int].0 == acc@[j as int].0@);
        }
        j = j + 1;
    }
    proof {
        lemma_insert_entry_sorted_at(pm, old_model, old_model.len() as int);
    }
    let ghost prev = acc@;
    let ghost pv = p;
    acc.push(p);
    proof {
        let lhs = entries_model(acc@);
        assert forall|i: int| 0 <= i < lhs.len() implies lhs[i] == old_model.push(pm)[i] by {
            assert(lhs[i] == (acc@[i].0@, cres_model(acc@[i].1)));
            if i < prev.len() {
                assert(acc@[i] == prev[i]);
                assert(old_model[i] == (prev[i].0@, cres_model(prev[i].1)));
            } else {
                assert(acc@[i] == pv);
            }
        }
        assert(lhs =~= old_model.push(pm));
        assert(old_model.take(old_model.len() as int) =~= old_model);
        assert(old_model.skip(old_model.len() as int) =~= Seq::empty());
        assert(old_model.push(pm) =~= old_model + seq![pm] + Seq::empty());
    }
}

/// The entries sorted by identifier.
fn sort_entries(v: &Vec<(String, config::Resource)>) -> (r: Vec<(String, config::Resource)>)
    ensures
        entries_model(r@) == sort_entries_spec(entries_model(v@)),
{
    let ghost vm = entries_model(v@);
    let mut acc: Vec<(String, config::Resource)> = Vec::new();
    let mut i: usize = 0;
    proof {
        assert(entries_model(acc@) =~= sort_entries_prefix(vm, 0));
    }
    while i < v.len()
        invariant
            0 <= i <= v@.len(),
            vm == entries_model(v@),
            vm.len() == v@.len(),
            entries_model(acc@) == sort_entries_prefix(vm, i as int),
        decreases v@.len() - i,
    {
        let p = clone_entry(&v[i]);
        proof {
            assert(vm[i as int] == (v@[i as int].0@, cres_model(v@[i as int].1)));
            assert((p.0@, cres_model(p.1)) == vm[i as int]);
        }
        insert_entry(&mut acc, p);
        i = i + 1;
    }
    acc
}

/// No two entries share an identifier.
pub open spec fn unique_keys(s: Seq<(Seq<char>, ConfigResourceModel)>) -> bool {
    forall|i: int, j: int| 0 <= i < j < s.len() ==> (#[trigger] s[i]).0 != (#[trigger] s[j]).0
}

/// The resource stored under an identifier, if any.
pub open spec fn entry_at(s: Seq<(Seq<char>, ConfigResourceModel)>, id: Seq<char>) -> Option<
    ConfigResourceModel,
>
    decreases s.len(),
{
    if s.len() == 0 {
        None
    } else if s[0].0 == id {
        Some(s[0].1)
    } else {
        entry_at(s.skip(1), id)
    }
}

/// The identifiers of the resources that require `id`, in entry order.
pub open spec fn child_ids(s: Seq<(Seq<char>, ConfigResourceModel)>, id: Seq<char>) -> Seq<
    Seq<char>,
>
    decreases s.len(),
{
    if s.len() == 0 {
        Seq::empty()
    } else if s[0].1.requires == Some(id) {
        seq![s[0].0] + child_ids(s.skip(1), id)
    } else {
        child_ids(s.skip(1), id)
    }
}

/// The identifiers of the resources without a dependency, in entry
/// order: the roots of the host's trees.
pub open spec fn root_ids(s: Seq<(Seq<char>, ConfigResourceModel)>) -> Seq<Seq<char>>
    decreases s.len(),
{
    if s.len() == 0 {
        Seq::empty()
    } else if s[0].1.requires is None {
        seq![s[0].0] + root_ids(s.skip(1))
    } else {
        root_ids(s.skip(1))
    }
}

/// Every named dependency resolves to an entry.
pub open spec fn all_requires_resolve(s: Seq<(Seq<char>, ConfigResourceModel)>) -> bool {
    forall|i: int|
        0 <= i < s.len() ==> match (#[trigger] s[i]).1.requires {
            Some(q) => entry_at(s, q) is Some,
            None => true,
        }
}

/// Every root entry is a storage pool.
pub open spec fn roots_are_pools(s: Seq<(Seq<char>, ConfigResourceModel)>) -> bool {
    forall|i: int|
        0 <= i < s.len() ==> ((#[trigger] s[i]).1.requires is None ==> s[i].1.kind
            == "heartbeat/ZFS"@)
}

/// The assembled tree rooted at the entry `id` is exactly what the
/// entries describe: the entry's own kind and parameters, an `Unknown`
/// status, the host bindings, and one dependent subtree per entry that
/// requires `id`, in entry order.
pub open spec fn tree_matches(
    s: Seq<(Seq<char>, ConfigResourceModel)>,
    id: Seq<char>,
    m: ResourceModel,
    home: int,
    away: Option<int>,
    verbose: bool,
) -> bool
    decreases m,
{
    &&& match entry_at(s, id) {
        Some(e) => m.kind == e.kind && m.parameters == e.parameters,
        None => false,
    }
    &&& m.status == ResourceStatus::Unknown
    &&& m.home_node == home
    &&& m.failover_node == away
    &&& m.verbose == verbose
    &&& forest_matches(s, child_ids(s, id), m.dependents, home, away, verbose)
}

pub open spec fn forest_matches(
    s: Seq<(Seq<char>, ConfigResourceModel)>,
    ids: Seq<Seq<char>>,
    ms: Seq<ResourceModel>,
    home: int,
    away: Option<int>,
    verbose: bool,
) -> bool
    decreases ms,
{
    ids.len() == ms.len() && (ms.len() == 0 || (tree_matches(s, ids[0], ms[0], home, away, verbose)
        && forest_matches(s, ids.skip(1), ms.skip(1), home, away, verbose)))
}

/// A forest matches when each tree matches its identifier.
proof fn lemma_forest_matches_from_each(
    s: Seq<(Seq<char>, ConfigResourceModel)>,
    ids: Seq<Seq<char>>,
    ms: Seq<ResourceModel>,
    home: int,
    away: Option<int>,
    verbose: bool,
)
    requires
        ids.len() == ms.len(),
        forall|k: int|
            0 <= k < ms.len() ==> tree_matches(s, ids[k], #[trigger] ms[k], home, away, verbose),
    ensures
        forest_matches(s, ids, ms, home, away, verbose),
    decreases ms.len(),
{
    if ms.len() != 0 {
        assert(forall|k: int|
            0 <= k < ms.len() - 1 ==> ids.skip(1)[k] == ids[k + 1] && ms.skip(1)[k] == ms[k + 1]);
        lemma_forest_matches_from_each(s, ids.skip(1), ms.skip(1), home, away, verbose);
    }
}

/// Find the entry stored under an identifier.
fn find_entry(entries: &Vec<(String, config::Resource)>, key: &str) -> (r: Option<usize>)
    ensures
        match r {
            Some(j) => 0 <= j < entries@.len() && entries_model(entries@)[j as int].0 == key@
                && entry_at(entries_model(entries@), key@) == Some(
                entries_model(entries@)[j as int].1,
            ),
            None => entry_at(entries_model(entries@), key@) is None,
        },
{
    let ghost em = entries_model(entries@);
    let mut i: usize = 0;
    proof {
        assert(em.skip(0) =~= em);
    }
    while i < entries.len()
        invariant
            0 <= i <= entries@.len(),
            em == entries_model(entries@),
            em.len() == entries@.len(),
            entry_at(em, key@) == entry_at(em.skip(i as int), key@),
        decreases entries@.len() - i,
    {
        proof {
            assert(em[i as int] == (entries@[i as int].0@, cres_model(entries@[i as int].1)));
            assert(em.skip(i as int)[0] == em[i as int]);
            assert(em.skip(i as int).skip(1) =~= em.skip(i + 1));
        }
        if str_eq(entries[i].0.as_str(), key) {
            return Some(i);
        }
        i = i + 1;
    }
    proof {
        assert(em.skip(em.len() as int) =~= Seq::<(Seq<char>, ConfigResourceModel)>::empty());
    }
    None
}

/// Whether the entries carry pairwise distinct identifiers.
fn check_unique(entries: &Vec<(String, config::Resource)>) -> (r: bool)
    ensures
        r == unique_keys(entries_model(entries@)),
{
    let ghost em = entries_model(entries@);
    let mut i: usize = 0;
    while i < entries.len()
        invariant
            0 <= i <= entries@.len(),
            em == entries_model(entries@),
            em.len() == entries@.len(),
            forall|a: int, b: int| 0 <= a < b < i ==> (#[trigger] em[a]).0 != (#[trigger] em[b]).0,
            forall|a: int, b: int|
                0 <= a < i && a < b < em.len() ==> (#[trigger] em[a]).0 != (#[trigger] em[b]).0,
        decreases entries@.len() - i,
    {
        let mut j: usize = i + 1;
        while j < entries.len()
            invariant
                0 <= i < j <= entries@.len(),
                em == entries_model(entries@),
                em.len() == entries@.len(),
                forall|b: int| i < b < j ==> (#[trigger] em[b]).0 != em[i as int].0,
            decreases entries@.len() - j,
        {
            proof {
                assert(em[i as int].0 == entries@[i as int].0@);
                assert(em[j as int].0 == entries@[j as int].0@);
            }
            if str_eq(entries[i].0.as_str(), entries[j].0.as_str()) {
                return false;
            }
            j = j + 1;
        }
        i = i + 1;
    }
    true
}

/// Whether every named dependency resolves, and whether every root is a
/// storage pool.
fn check_edges(entries: &Vec<(String, config::Resource)>) -> (r: Result<(), config::ConfigError>)
    ensures
        match r {
            Ok(()) => all_requires_resolve(entries_model(entries@)) && roots_are_pools(
                entries_model(entries@),
            ),
            Err(config::ConfigError::UnresolvedRequires) => !all_requires_resolve(
                entries_model(entries@),
            ),
            Err(config::ConfigError::RootNotAPool) => !roots_are_pools(entries_model(entries@)),
            Err(_) => false,
        },
{
    let ghost em = entries_model(entries@);
    let mut i: usize = 0;
    while i < entries.len()
        invariant
            0 <= i <= entries@.len(),
            em == entries_model(entries@),
            em.len() == entries@.len(),
            forall|a: int|
                0 <= a < i ==> match (#[trigger] em[a]).1.requires {
                    Some(q) => entry_at(em, q) is Some,
                    None => em[a].1.kind == "heartbeat/ZFS"@,
                },
        decreases entries@.len() - i,
    {
        proof {
            assert(em[i as int] == (entries@[i as int].0@, cres_model(entries@[i as int].1)));
        }
        match &entries[i].1.requires {
            Some(q) => {
                if find_entry(entries, q.as_str()).is_none() {
                    return Err(config::ConfigError::UnresolvedRequires);
                }
            },
            None => {
                if !str_eq(entries[i].1.kind.as_str(), "heartbeat/ZFS") {
                    return Err(config::ConfigError::RootNotAPool);
                }
            },
        }
        i = i + 1;
    }
    proof {
        assert(all_requires_resolve(em));
        assert(roots_are_pools(em));
    }
    Ok(())
}

/// The dependency chain from the entry stored under `id` reaches a root
/// within `k` steps.
pub open spec fn rooted(s: Seq<(Seq<char>, ConfigResourceModel)>, id: Seq<char>, k: nat) -> bool
    decreases k,
{
    k > 0 && match entry_at(s, id) {
        Some(e) => match e.requires {
            None => true,
            Some(q) => rooted(s, q, (k - 1) as nat),
        },
        None => false,
    }
}

/// Every entry's dependency chain reaches a root: the `requires` edges
/// close no cycle.
pub open spec fn acyclic(s: Seq<(Seq<char>, ConfigResourceModel)>) -> bool {
    forall|j: int| 0 <= j < s.len() ==> rooted(s, (#[trigger] s[j]).0, s.len() as nat)
}

proof fn lemma_rooted_monotone(
    s: Seq<(Seq<char>, ConfigResourceModel)>,
    id: Seq<char>,
    k: nat,
    k2: nat,
)
    requires
        rooted(s, id, k),
        k <= k2,
    ensures
        rooted(s, id, k2),
    decreases k,
{
    match entry_at(s, id) {
        Some(e) => match e.requires {
            None => {},
            Some(q) => {
                lemma_rooted_monotone(s, q, (k - 1) as nat, (k2 - 1) as nat);
            },
        },
        None => {},
    }
}

/// Decide whether every dependency chain reaches a root. The edges must
/// already be known to resolve.
#[verifier::rlimit(100)]
fn check_acyclic(entries: &Vec<(String, config::Resource)>) -> (r: bool)
    requires
        unique_keys(entries_model(entries@)),
        all_requires_resolve(entries_model(entries@)),
    ensures
        r == acyclic(entries_model(entries@)),
{
    let ghost em = entries_model(entries@);
    let n = entries.len();
    let mut j: usize = 0;
    while j < n
        invariant
            0 <= j <= n,
            em == entries_model(entries@),
            em.len() == entries@.len(),
            n == entries@.len(),
            unique_keys(em),
            all_requires_resolve(em),
            forall|t: int| 0 <= t < j ==> rooted(em, (#[trigger] em[t]).0, em.len() as nat),
        decreases n - j,
    {
        let ghost jid = em[j as int].0;
        proof {
            assert(em[j as int] == (entries@[j as int].0@, cres_model(entries@[j as int].1)));
            lemma_entry_at_of_index(em, j as int);
        }
        let mut cur: usize = j;
        let mut steps: usize = 0;
        let mut reached_root = false;
        while steps < n && !reached_root
            invariant
                0 <= steps <= n,
                0 <= cur < n,
                em == entries_model(entries@),
                em.len() == entries@.len(),
                n == entries@.len(),
                unique_keys(em),
                all_requires_resolve(em),
                jid == em[j as int].0,
                0 <= j < n,
                entry_at(em, em[cur as int].0) == Some(em[cur as int].1),
                forall|k: nat|
                    k > 0 ==> (rooted(em, jid, (steps + k) as nat) ==> #[trigger] rooted(
                        em,
                        em[cur as int].0,
                        k,
                    )),
                forall|k: nat|
                    #[trigger] rooted(em, em[cur as int].0, k) ==> rooted(
                        em,
                        jid,
                        (steps + k) as nat,
                    ),
                !reached_root ==> !rooted(em, jid, steps as nat),
                reached_root ==> rooted(em, em[cur as int].0, 1nat) && steps < n,
            ensures
                reached_root || steps >= n,
            decreases n - steps,
        {
            proof {
                assert(em[cur as int] == (
                    entries@[cur as int].0@,
                    cres_model(entries@[cur as int].1),
                ));
            }
            let ghost pre_cur = cur as int;
            let ghost pre_steps = steps as int;
            match &entries[cur].1.requires {
                None => {
                    reached_root = true;
                    proof {
                        assert(em[pre_cur].1.requires is None);
                        assert(rooted(em, em[pre_cur].0, 1nat));
                    }
                    break ;
                },
                Some(q) => {
                    let next = match find_entry(entries, q.as_str()) {
                        Some(x) => x,
                        None => {
                            proof {
                                assert(em[pre_cur].1.requires matches Some(qq) && entry_at(
                                    em,
                                    qq,
                                ) is Some);
                                assert(false);
                            }
                            return false;
                        },
                    };
                    proof {
                        lemma_entry_at_of_index(em, next as int);
                        let qv = em[pre_cur].1.requires.unwrap();
                        assert(em[next as int].0 == qv);
                        // One step along the chain, in both directions:
                        // the current entry reaches a root within k + 1
                        // steps exactly when the next one does within k.
                        assert forall|k: nat|
                            #[trigger] rooted(em, em[next as int].0, k) implies rooted(
                            em,
                            em[pre_cur].0,
                            (k + 1) as nat,
                        ) by {
                            assert(entry_at(em, em[pre_cur].0) == Some(em[pre_cur].1));
                        }
                        assert forall|k: nat|
                            k > 0 && #[trigger] rooted(em, em[pre_cur].0, (k + 1) as nat) implies
                            rooted(em, em[next as int].0, k) by {
                            assert(entry_at(em, em[pre_cur].0) == Some(em[pre_cur].1));
                        }
                        // The budget spent so far cannot already reach a
                        // root: every entry walked through requires one
                        // more.
                        assert(!rooted(em, jid, (pre_steps + 1) as nat)) by {
                            if rooted(em, jid, (pre_steps + 1) as nat) {
                                assert(rooted(em, em[pre_cur].0, 1nat));
                                assert(entry_at(em, em[pre_cur].0) == Some(em[pre_cur].1));
                                assert(!rooted(em, em[pre_cur].1.requires.unwrap(), 0nat));
                                assert(em[pre_cur].1.requires is None);
                            }
                        }
                    }
                    cur = next;
                    steps = steps + 1;
                    proof {
                        assert forall|k: nat|
                            k > 0 && rooted(em, jid, (steps + k) as nat) implies #[trigger] rooted(
                            em,
                            em[cur as int].0,
                            k,
                        ) by {
                            assert(rooted(em, jid, (pre_steps + (k + 1)) as nat));
                            assert(rooted(em, em[pre_cur].0, (k + 1) as nat));
                        }
                        assert forall|k: nat|
                            #[trigger] rooted(em, em[cur as int].0, k) implies rooted(
                            em,
                            jid,
                            (steps + k) as nat,
                        ) by {
                            assert(rooted(em, em[pre_cur].0, (k + 1) as nat));
                            assert(rooted(em, jid, (pre_steps + (k + 1)) as nat));
                        }
                    }
                },
            }
        }
        if !reached_root {
            proof {
                assert(steps == n);
                assert(!rooted(em, jid, em.len() as nat));
                assert(!acyclic(em));
            }
            return false;
        }
        proof {
            assert(rooted(em, em[cur as int].0, 1nat));
            assert(rooted(em, jid, (steps + 1) as nat));
            lemma_rooted_monotone(em, jid, (steps + 1) as nat, em.len() as nat);
        }
        j = j + 1;
    }
    true
}

/// The identifiers of the given entry indices.
pub open spec fn ids_at(js: Seq<usize>, em: Seq<(Seq<char>, ConfigResourceModel)>) -> Seq<
    Seq<char>,
> {
    js.map_values(|x: usize| em[x as int].0)
}

/// Build the resource tree rooted at entry `idx`: the entry itself, and
/// one dependent subtree per entry requiring it, in entry order. The
/// recursion budget only runs out when the dependency edges close a
/// cycle.
fn build_tree(
    entries: &Vec<(String, config::Resource)>,
    idx: usize,
    home: usize,
    away: Option<usize>,
    verbose: bool,
    fuel: usize,
    Ghost(d): Ghost<nat>,
) -> (r: Result<Resource, config::ConfigError>)
    requires
        idx < entries@.len(),
        unique_keys(entries_model(entries@)),
        all_requires_resolve(entries_model(entries@)),
        acyclic(entries_model(entries@)),
        d > 0,
        rooted(entries_model(entries@), entries_model(entries@)[idx as int].0, d),
        !rooted(entries_model(entries@), entries_model(entries@)[idx as int].0, (d - 1) as nat),
        fuel + d > entries@.len(),
    ensures
        match r {
            Ok(m) => tree_matches(
                entries_model(entries@),
                entries_model(entries@)[idx as int].0,
                m@,
                home as int,
                match away {
                    Some(a) => Some(a as int),
                    None => None,
                },
                verbose,
            ),
            Err(_) => false,
        },
    decreases fuel,
{
    let ghost em = entries_model(entries@);
    let ghost my_id = em[idx as int].0;
    if fuel == 0 {
        proof {
            // The recursion budget cannot run out: the chain above this
            // entry is that deep already, and no chain is longer than
            // the entry list.
            assert(d > em.len());
            assert(rooted(em, em[idx as int].0, em.len() as nat));
            lemma_rooted_monotone(em, em[idx as int].0, em.len() as nat, (d - 1) as nat);
            assert(false);
        }
        return Err(config::ConfigError::DependencyCycle);
    }
    proof {
        assert(em[idx as int] == (entries@[idx as int].0@, cres_model(entries@[idx as int].1)));
    }
    let mut js: Vec<usize> = Vec::new();
    let mut j: usize = 0;
    proof {
        assert(em.skip(0) =~= em);
        assert(ids_at(js@, em) =~= Seq::<Seq<char>>::empty());
        assert(ids_at(js@, em) + child_ids(em, my_id) =~= child_ids(em, my_id));
    }
    while j < entries.len()
        invariant
            0 <= j <= entries@.len(),
            em == entries_model(entries@),
            em.len() == entries@.len(),
            my_id == em[idx as int].0,
            idx < entries@.len(),
            forall|k: int|
                0 <= k < js@.len() ==> (#[trigger] js@[k]) < entries@.len() && em[js@[k] as int].1.requires
                    == Some(my_id),
            ids_at(js@, em) + child_ids(em.skip(j as int), my_id) == child_ids(em, my_id),
        decreases entries@.len() - j,
    {
        let ghost pre_js = js@;
        proof {
            assert(em[j as int] == (entries@[j as int].0@, cres_model(entries@[j as int].1)));
            assert(em.skip(j as int)[0] == em[j as int]);
            assert(em.skip(j as int).skip(1) =~= em.skip(j + 1));
        }
        let is_child = match &entries[j].1.requires {
            Some(q) => str_eq(q.as_str(), entries[idx].0.as_str()),
            None => false,
        };
        if is_child {
            js.push(j);
            proof {
                assert(em[j as int].1.requires == Some(my_id));
                assert(child_ids(em.skip(j as int), my_id) == seq![em[j as int].0] + child_ids(
                    em.skip(j + 1),
                    my_id,
                ));
                assert(ids_at(js@, em) =~= ids_at(pre_js, em).push(em[j as int].0));
                assert(ids_at(js@, em) + child_ids(em.skip(j + 1), my_id) =~= ids_at(pre_js, em)
                    + child_ids(em.skip(j as int), my_id));
            }
        } else {
            proof {
                assert(em[j as int].1.requires != Some(my_id));
                assert(child_ids(em.skip(j as int), my_id) == child_ids(em.skip(j + 1), my_id));
            }
        }
        j = j + 1;
    }
    proof {
        assert(em.skip(em.len() as int) =~= Seq::<(Seq<char>, ConfigResourceModel)>::empty());
        assert(child_ids(Seq::empty(), my_id) == Seq::<Seq<char>>::empty());
        assert(ids_at(js@, em) + Seq::<Seq<char>>::empty() =~= ids_at(js@, em));
        assert(ids_at(js@, em) == child_ids(em, my_id));
    }
    let ghost cids = child_ids(em, my_id);
    let mut deps: Vec<Resource> = Vec::new();
    let mut k: usize = 0;
    while k < js.len()
        invariant
            0 <= k <= js@.len(),
            em == entries_model(entries@),
            em.len() == entries@.len(),
            idx < entries@.len(),
            my_id == em[idx as int].0,
            unique_keys(em),
            all_requires_resolve(em),
            acyclic(em),
            d > 0,
            rooted(em, my_id, d),
            !rooted(em, my_id, (d - 1) as nat),
            fuel + d > em.len(),
            cids == ids_at(js@, em),
            cids.len() == js@.len(),
            forall|t: int|
                0 <= t < js@.len() ==> (#[trigger] js@[t]) < entries@.len() && em[js@[t] as int].1.requires
                    == Some(my_id),
            fuel >= 1,
            deps@.len() == k,
            forall|t: int|
                0 <= t < k ==> tree_matches(
                    em,
                    cids[t],
                    (#[trigger] deps@[t])@,
                    home as int,
                    match away {
                        Some(a) => Some(a as int),
                        None => None,
                    },
                    verbose,
                ),
        decreases js@.len() - k,
    {
        proof {
            let ji = js@[k as int] as int;
            lemma_entry_at_of_index(em, ji);
            // The child's chain is one entry longer than this one's.
            assert(rooted(em, em[ji].0, (d + 1) as nat)) by {
                assert(entry_at(em, em[ji].0) == Some(em[ji].1));
                assert(em[ji].1.requires == Some(my_id));
            }
            assert(!rooted(em, em[ji].0, d)) by {
                if rooted(em, em[ji].0, d) {
                    assert(rooted(em, my_id, (d - 1) as nat));
                }
            }
        }
        let child = match build_tree(
            entries,
            js[k],
            home,
            away,
            verbose,
            fuel - 1,
            Ghost((d + 1) as nat),
        ) {
            Ok(c) => c,
            Err(e) => {
                proof {
                    assert(false);
                }
                return Err(e);
            },
        };
        proof {
            assert(cids[k as int] == em[js@[k as int] as int].0);
        }
        deps.push(child);
        k = k + 1;
    }
    let node = Resource {
        kind: entries[idx].1.kind.clone(),
        parameters: clone_params(&entries[idx].1.parameters),
        dependents: deps,
        status: ResourceStatus::Unknown,
        home_node: home,
        failover_node: away,
        verbose,
    };
    proof {
        lemma_entry_at_of_index(em, idx as int);
        let nm = node@;
        assert(nm.dependents.len() == cids.len());
        assert forall|t: int| 0 <= t < cids.len() implies tree_matches(
            em,
            cids[t],
            #[trigger] nm.dependents[t],
            home as int,
            match away {
                Some(a) => Some(a as int),
                None => None,
            },
            verbose,
        ) by {
            assert(nm.dependents[t] == node.dependents@[t]@);
        }
        lemma_forest_matches_from_each(
            em,
            cids,
            nm.dependents,
            home as int,
            match away {
                Some(a) => Some(a as int),
                None => None,
            },
            verbose,
        );
        assert(nm.kind == em[idx as int].1.kind);
        assert(nm.parameters == em[idx as int].1.parameters);
    }
    Ok(node)
}

/// The groups of one host describe exactly the host's sorted entries:
/// well-formed edges, one group per root, each tree matching its
/// entries, every group's aggregate starting at `Unknown`.
pub open spec fn groups_of_host_ok(
    em: Seq<(Seq<char>, ConfigResourceModel)>,
    groups: Seq<ResourceGroup>,
    home: int,
    away: Option<int>,
    verbose: bool,
) -> bool {
    &&& unique_keys(em)
    &&& all_requires_resolve(em)
    &&& roots_are_pools(em)
    &&& acyclic(em)
    &&& groups.len() == root_ids(em).len()
    &&& forall|k: int|
        0 <= k < groups.len() ==> tree_matches(
            em,
            root_ids(em)[k],
            (#[trigger] groups[k]).root@,
            home,
            away,
            verbose,
        ) && groups[k].overall() == ResourceStatus::Unknown
}

/// The total membership of a list of groups.
pub open spec fn total_members(groups: Seq<ResourceGroup>) -> int
    decreases groups.len(),
{
    if groups.len() == 0 {
        0
    } else {
        total_members(groups.drop_last()) + groups.last().members().len()
    }
}

impl Cluster {
    /// Assemble one host's resource entries into its resource groups:
    /// sort the entries by identifier, reject duplicate identifiers,
    /// unresolved dependencies and non-pool roots, and build one
    /// dependency tree per root, in identifier order.
    pub fn one_host_resource_groups(
    config_host: &config::Host,
    home: usize,
    away: Option<usize>,
    verbose: bool,
) -> (r: Result<Vec<ResourceGroup>, config::ConfigError>)
    ensures
        match r {
            Ok(groups) => groups_of_host_ok(
                sort_entries_spec(entries_model(config_host.resources@)),
                groups@,
                home as int,
                match away {
                    Some(a) => Some(a as int),
                    None => None,
                },
                verbose,
            ),
            Err(config::ConfigError::DuplicateResourceId) => !unique_keys(
                sort_entries_spec(entries_model(config_host.resources@)),
            ),
            Err(config::ConfigError::UnresolvedRequires) => !all_requires_resolve(
                sort_entries_spec(entries_model(config_host.resources@)),
            ),
            Err(config::ConfigError::RootNotAPool) => !roots_are_pools(
                sort_entries_spec(entries_model(config_host.resources@)),
            ),
            Err(config::ConfigError::DependencyCycle) => !acyclic(
                sort_entries_spec(entries_model(config_host.resources@)),
            ),
            Err(_) => false,
        },
{
    let entries = sort_entries(&config_host.resources);
    let ghost em = entries_model(entries@);
    if !check_unique(&entries) {
        return Err(config::ConfigError::DuplicateResourceId);
    }
    match check_edges(&entries) {
        Ok(()) => {},
        Err(e) => {
            return Err(e);
        },
    }
    if !check_acyclic(&entries) {
        return Err(config::ConfigError::DependencyCycle);
    }
    let ghost away_i: Option<int> = match away {
        Some(a) => Some(a as int),
        None => None,
    };
    let mut groups: Vec<ResourceGroup> = Vec::new();
    let ghost collected: Seq<Seq<char>> = Seq::empty();
    let mut collected_tracker: Ghost<Seq<Seq<char>>> = Ghost(collected);
    let mut i: usize = 0;
    proof {
        assert(em.skip(0) =~= em);
        assert(collected_tracker@ + root_ids(em) =~= root_ids(em));
    }
    while i < entries.len()
        invariant
            0 <= i <= entries@.len(),
            em == entries_model(entries@),
            em.len() == entries@.len(),
            unique_keys(em),
            all_requires_resolve(em),
            roots_are_pools(em),
            acyclic(em),
            away_i == match away {
                Some(a) => Some(a as int),
                None => None,
            },
            collected_tracker@.len() == groups@.len(),
            collected_tracker@ + root_ids(em.skip(i as int)) == root_ids(em),
            forall|k: int|
                0 <= k < groups@.len() ==> tree_matches(
                    em,
                    collected_tracker@[k],
                    (#[trigger] groups@[k]).root@,
                    home as int,
                    away_i,
                    verbose,
                ) && groups@[k].overall() == ResourceStatus::Unknown,
        decreases entries@.len() - i,
    {
        proof {
            assert(em[i as int] == (entries@[i as int].0@, cres_model(entries@[i as int].1)));
            assert(em.skip(i as int)[0] == em[i as int]);
            assert(em.skip(i as int).skip(1) =~= em.skip(i + 1));
        }
        let is_root = match &entries[i].1.requires {
            Some(_) => false,
            None => true,
        };
        if is_root {
            let ghost pre_collected = collected_tracker@;
            let ghost pre_groups = groups@;
            proof {
                lemma_entry_at_of_index(em, i as int);
                assert(rooted(em, em[i as int].0, 1nat));
            }
            let root = match build_tree(&entries, i, home, away, verbose, entries.len(), Ghost(
                1nat,
            )) {
                Ok(t) => t,
                Err(e) => {
                    proof {
                        assert(false);
                    }
                    return Err(e);
                },
            };
            proof {
                lemma_entry_at_of_index(em, i as int);
                assert(root@.kind == em[i as int].1.kind);
                assert(em[i as int].1.kind == "heartbeat/ZFS"@);
            }
            let group = ResourceGroup::new(root);
            let ghost gv = group;
            groups.push(group);
            proof {
                collected_tracker@ = pre_collected.push(em[i as int].0);
                assert(root_ids(em.skip(i as int)) == seq![em[i as int].0] + root_ids(
                    em.skip(i + 1),
                ));
                assert(collected_tracker@ + root_ids(em.skip(i + 1)) =~= pre_collected + root_ids(
                    em.skip(i as int),
                ));
                assert forall|k: int| 0 <= k < groups@.len() implies tree_matches(
                    em,
                    collected_tracker@[k],
                    (#[trigger] groups@[k]).root@,
                    home as int,
                    away_i,
                    verbose,
                ) && groups@[k].overall() == ResourceStatus::Unknown by {
                    if k < groups@.len() - 1 {
                        assert(groups@[k] == pre_groups[k]);
                        assert(collected_tracker@[k] == pre_collected[k]);
                    } else {
                        assert(groups@[k] == gv);
                        assert(collected_tracker@[k] == em[i as int].0);
                    }
                }
            }
        } else {
            proof {
                assert(root_ids(em.skip(i as int)) == root_ids(em.skip(i + 1)));
            }
        }
        i = i + 1;
    }
    proof {
        assert(em.skip(em.len() as int) =~= Seq::<(Seq<char>, ConfigResourceModel)>::empty());
        assert(root_ids(Seq::empty()) == Seq::<Seq<char>>::empty());
        assert(collected_tracker@ + Seq::<Seq<char>>::empty() =~= collected_tracker@);
        assert(collected_tracker@ == root_ids(em));
    }
    Ok(groups)
}
}

/// The entries stand in key order.
pub open spec fn sorted_by_key(s: Seq<(Seq<char>, ConfigResourceModel)>) -> bool {
    forall|i: int, j: int|
        0 <= i < j < s.len() ==> crate::strutil::lex_le((#[trigger] s[i]).0, (#[trigger] s[j]).0)
}

proof fn lemma_to_multiset_concat_entries(
    a: Seq<(Seq<char>, ConfigResourceModel)>,
    b: Seq<(Seq<char>, ConfigResourceModel)>,
)
    ensures
        (a + b).to_multiset() =~= a.to_multiset().add(b.to_multiset()),
    decreases b.len(),
{
    broadcast use vstd::seq_lib::group_to_multiset_ensures;

    if b.len() == 0 {
        assert(a + b =~= a);
        assert(b.to_multiset().len() == 0);
        assert(b.to_multiset() =~= Multiset::empty());
    } else {
        let c = b.drop_last();
        let x = b.last();
        lemma_to_multiset_concat_entries(a, c);
        assert(a + b =~= (a + c).push(x));
        assert(b =~= c.push(x));
        assert((a + c).push(x).to_multiset() =~= (a + c).to_multiset().insert(x));
        assert(c.push(x).to_multiset() =~= c.to_multiset().insert(x));
    }
}

/// Insertion keeps the key order, adds exactly the new entry, and takes
/// its elements from the old list and the new entry.
proof fn lemma_insert_entry_sorted_props(
    p: (Seq<char>, ConfigResourceModel),
    s: Seq<(Seq<char>, ConfigResourceModel)>,
)
    requires
        sorted_by_key(s),
    ensures
        sorted_by_key(insert_entry_sorted(p, s)),
        insert_entry_sorted(p, s).len() == s.len() + 1,
        forall|t: int|
            0 <= t < insert_entry_sorted(p, s).len() ==> (#[trigger] insert_entry_sorted(p, s)[t]
                == p || s.contains(insert_entry_sorted(p, s)[t])),
        insert_entry_sorted(p, s).to_multiset() =~= s.to_multiset().insert(p),
    decreases s.len(),
{
    broadcast use vstd::seq_lib::group_to_multiset_ensures;
    broadcast use vstd::multiset::group_multiset_axioms;

    let r = insert_entry_sorted(p, s);
    if s.len() == 0 {
        assert(r =~= Seq::empty().push(p));
        assert(Seq::<(Seq<char>, ConfigResourceModel)>::empty().push(p).to_multiset() =~= Seq::<
            (Seq<char>, ConfigResourceModel),
        >::empty().to_multiset().insert(p));
        assert(Seq::<(Seq<char>, ConfigResourceModel)>::empty().to_multiset().len() == 0);
        assert(Seq::<(Seq<char>, ConfigResourceModel)>::empty().to_multiset()
            =~= Multiset::empty());
    } else if key_lt(p.0, s[0].0) {
        assert(r == seq![p] + s);
        assert forall|i: int, j: int| 0 <= i < j < r.len() implies crate::strutil::lex_le(
            (#[trigger] r[i]).0,
            (#[trigger] r[j]).0,
        ) by {
            if i == 0 {
                assert(r[j] == s[j - 1]);
                if j > 1 {
                    crate::strutil::lemma_lex_le_trans(p.0, s[0].0, s[j - 1].0);
                }
            } else {
                assert(r[i] == s[i - 1]);
                assert(r[j] == s[j - 1]);
            }
        }
        lemma_to_multiset_concat_entries(seq![p], s);
        assert(seq![p] =~= Seq::empty().push(p));
        assert(Seq::<(Seq<char>, ConfigResourceModel)>::empty().push(p).to_multiset() =~= Seq::<
            (Seq<char>, ConfigResourceModel),
        >::empty().to_multiset().insert(p));
        assert(Seq::<(Seq<char>, ConfigResourceModel)>::empty().to_multiset().len() == 0);
        assert(r.to_multiset() =~= s.to_multiset().insert(p));
        assert(forall|t: int| 1 <= t < r.len() ==> r[t] == s[t - 1] && s.contains(s[t - 1]));
    } else {
        // The head key does not lie above the new key.
        assert(crate::strutil::lex_le(s[0].0, p.0)) by {
            crate::strutil::lemma_lex_le_total(p.0, s[0].0);
        }
        assert(sorted_by_key(s.skip(1))) by {
            assert(forall|t: int| 0 <= t < s.len() - 1 ==> s.skip(1)[t] == s[t + 1]);
        }
        lemma_insert_entry_sorted_props(p, s.skip(1));
        let r2 = insert_entry_sorted(p, s.skip(1));
        assert(r == seq![s[0]] + r2);
        assert forall|i: int, j: int| 0 <= i < j < r.len() implies crate::strutil::lex_le(
            (#[trigger] r[i]).0,
            (#[trigger] r[j]).0,
        ) by {
            if i == 0 {
                assert(r[j] == r2[j - 1]);
                if r2[j - 1] == p {
                    assert(crate::strutil::lex_le(s[0].0, p.0));
                } else {
                    assert(s.skip(1).contains(r2[j - 1]));
                    let u = choose|u: int|
                        0 <= u < s.skip(1).len() && s.skip(1)[u] == r2[j - 1];
                    assert(s.skip(1)[u] == s[u + 1]);
                    assert(crate::strutil::lex_le(s[0].0, s[u + 1].0));
                }
            } else {
                assert(r[i] == r2[i - 1]);
                assert(r[j] == r2[j - 1]);
            }
        }
        assert forall|t: int| 0 <= t < r.len() implies (#[trigger] r[t] == p || s.contains(
            r[t],
        )) by {
            if t == 0 {
                assert(r[0] == s[0]);
            } else {
                assert(r[t] == r2[t - 1]);
                if r2[t - 1] != p {
                    assert(s.skip(1).contains(r2[t - 1]));
                    let u = choose|u: int|
                        0 <= u < s.skip(1).len() && s.skip(1)[u] == r2[t - 1];
                    assert(s[u + 1] == r2[t - 1]);
                }
            }
        }
        lemma_to_multiset_concat_entries(seq![s[0]], r2);
        lemma_to_multiset_concat_entries(seq![s[0]], s.skip(1));
        assert(s =~= seq![s[0]] + s.skip(1));
        assert(r.to_multiset() =~= s.to_multiset().insert(p));
    }
}

/// Sorting keeps exactly the entries and puts them in key order.
proof fn lemma_sort_prefix_props(s: Seq<(Seq<char>, ConfigResourceModel)>, i: int)
    requires
        0 <= i <= s.len(),
    ensures
        sorted_by_key(sort_entries_prefix(s, i)),
        sort_entries_prefix(s, i).to_multiset() =~= s.take(i).to_multiset(),
    decreases i,
{
    broadcast use vstd::seq_lib::group_to_multiset_ensures;

    if i == 0 {
        assert(s.take(0) =~= Seq::empty());
        assert(sort_entries_prefix(s, 0).to_multiset().len() == 0);
        assert(s.take(0).to_multiset().len() == 0);
    } else {
        lemma_sort_prefix_props(s, i - 1);
        lemma_insert_entry_sorted_props(s[i - 1], sort_entries_prefix(s, i - 1));
        assert(s.take(i) =~= s.take(i - 1).push(s[i - 1]));
        assert(s.take(i - 1).push(s[i - 1]).to_multiset() =~= s.take(i - 1).to_multiset().insert(
            s[i - 1],
        ));
    }
}

/// Two occurrences at distinct positions put the value's multiplicity at
/// two or more.
proof fn lemma_two_positions_count(t: Seq<(Seq<char>, ConfigResourceModel)>, i: int, j: int)
    requires
        0 <= i < j < t.len(),
        t[i] == t[j],
    ensures
        t.to_multiset().count(t[i]) >= 2,
{
    broadcast use vstd::seq_lib::group_to_multiset_ensures;

    assert(t.remove(j).to_multiset() =~= t.to_multiset().remove(t[j]));
    assert(t.remove(j)[i] == t[i]);
    assert(t.remove(j).contains(t[i]));
    assert(t.remove(j).to_multiset().count(t[i]) > 0);
}

/// A multiplicity of two or more puts the value at two distinct
/// positions.
proof fn lemma_count_two_positions(
    a: Seq<(Seq<char>, ConfigResourceModel)>,
    v: (Seq<char>, ConfigResourceModel),
)
    requires
        a.to_multiset().count(v) >= 2,
    ensures
        exists|p: int, q: int| 0 <= p < q < a.len() && (#[trigger] a[p]) == v && (#[trigger] a[q]) == v,
{
    broadcast use vstd::seq_lib::group_to_multiset_ensures;

    assert(a.contains(v));
    let p = choose|p: int| 0 <= p < a.len() && a[p] == v;
    assert(a.remove(p).to_multiset() =~= a.to_multiset().remove(v));
    assert(a.remove(p).to_multiset().count(v) >= 1);
    assert(a.remove(p).contains(v));
    let r = choose|r: int| 0 <= r < a.remove(p).len() && a.remove(p)[r] == v;
    if r < p {
        assert(a[r] == a.remove(p)[r]);
        assert(0 <= r < p < a.len() && a[r] == v && a[p] == v);
    } else {
        assert(a[r + 1] == a.remove(p)[r]);
        assert(0 <= p < r + 1 < a.len() && a[p] == v && a[r + 1] == v);
    }
}

/// Unique keys carry over to any rearrangement of the entries.
proof fn lemma_unique_keys_transfer(
    a: Seq<(Seq<char>, ConfigResourceModel)>,
    t: Seq<(Seq<char>, ConfigResourceModel)>,
)
    requires
        unique_keys(a),
        a.to_multiset() == t.to_multiset(),
    ensures
        unique_keys(t),
{
    broadcast use vstd::seq_lib::group_to_multiset_ensures;

    assert forall|i: int, j: int| 0 <= i < j < t.len() implies (#[trigger] t[i]).0 != (
    #[trigger] t[j]).0 by {
        if t[i] == t[j] {
            lemma_two_positions_count(t, i, j);
            lemma_count_two_positions(a, t[i]);
            let (p, q) = choose|p: int, q: int|
                0 <= p < q < a.len() && (#[trigger] a[p]) == t[i] && (#[trigger] a[q]) == t[i];
            assert(a[p].0 != a[q].0);
            assert(false);
        } else if t[i].0 == t[j].0 {
            assert(t.contains(t[i]));
            assert(t.contains(t[j]));
            assert(a.contains(t[i]));
            assert(a.contains(t[j]));
            let p = choose|p: int| 0 <= p < a.len() && a[p] == t[i];
            let q = choose|q: int| 0 <= q < a.len() && a[q] == t[j];
            assert(p != q);
            if p < q {
                assert(a[p].0 != a[q].0);
            } else {
                assert(a[q].0 != a[p].0);
            }
            assert(false);
        }
    }
}

/// Two key-sorted entry lists with unique keys and the same entries are
/// the same list.
proof fn lemma_sorted_unique_equal(
    x: Seq<(Seq<char>, ConfigResourceModel)>,
    y: Seq<(Seq<char>, ConfigResourceModel)>,
)
    requires
        sorted_by_key(x),
        sorted_by_key(y),
        unique_keys(x),
        unique_keys(y),
        x.to_multiset() == y.to_multiset(),
    ensures
        x == y,
    decreases x.len(),
{
    broadcast use vstd::seq_lib::group_to_multiset_ensures;

    assert(x.len() == x.to_multiset().len());
    assert(y.len() == y.to_multiset().len());
    if x.len() == 0 {
        assert(x =~= y);
    } else {
        assert(x.contains(x[0]));
        assert(x.to_multiset().count(x[0]) > 0);
        assert(y.contains(x[0]));
        let k = choose|k: int| 0 <= k < y.len() && y[k] == x[0];
        assert(y.contains(y[0]));
        assert(y.to_multiset().count(y[0]) > 0);
        assert(x.to_multiset().count(y[0]) > 0);
        assert(x.contains(y[0]));
        let m = choose|m: int| 0 <= m < x.len() && x[m] == y[0];
        assert(crate::strutil::lex_le(y[0].0, x[0].0)) by {
            if k > 0 {
                assert(crate::strutil::lex_le(y[0].0, y[k].0));
            } else {
                crate::strutil::lemma_lex_le_total(y[0].0, y[0].0);
            }
        }
        assert(crate::strutil::lex_le(x[0].0, y[0].0)) by {
            if m > 0 {
                assert(crate::strutil::lex_le(x[0].0, x[m].0));
            } else {
                crate::strutil::lemma_lex_le_total(x[0].0, x[0].0);
            }
        }
        crate::strutil::lemma_lex_le_antisym(x[0].0, y[0].0);
        assert(x[0].0 == y[0].0);
        assert(y[k].0 == y[0].0);
        assert(k == 0) by {
            if k > 0 {
                assert(y[0].0 != y[k].0);
            }
        }
        assert(x[0] == y[0]);
        assert(x.remove(0).to_multiset() =~= x.to_multiset().remove(x[0]));
        assert(y.remove(0).to_multiset() =~= y.to_multiset().remove(y[0]));
        assert(x.remove(0) =~= x.skip(1));
        assert(y.remove(0) =~= y.skip(1));
        assert(forall|t: int| 0 <= t < x.len() - 1 ==> x.skip(1)[t] == x[t + 1]);
        assert(forall|t: int| 0 <= t < y.len() - 1 ==> y.skip(1)[t] == y[t + 1]);
        assert(sorted_by_key(x.skip(1)));
        assert(sorted_by_key(y.skip(1)));
        assert(unique_keys(x.skip(1)));
        assert(unique_keys(y.skip(1)));
        assert(x.skip(1).to_multiset() == y.skip(1).to_multiset());
        lemma_sorted_unique_equal(x.skip(1), y.skip(1));
        assert(x =~= seq![x[0]] + x.skip(1));
        assert(y =~= seq![y[0]] + y.skip(1));
    }
}

/// Assembly is order independent: two resource entry lists holding the
/// same entries in any order, with pairwise distinct identifiers, sort
/// to the same canonical list. The built trees, groups and snapshot
/// order are functions of that sorted list alone, so a permutation of a
/// host's resource map changes nothing in the assembled cluster.
pub proof fn lemma_assembly_order_independent(
    a: Seq<(Seq<char>, ConfigResourceModel)>,
    b: Seq<(Seq<char>, ConfigResourceModel)>,
)
    requires
        unique_keys(a),
        a.to_multiset() == b.to_multiset(),
    ensures
        sort_entries_spec(a) == sort_entries_spec(b),
{
    lemma_sort_prefix_props(a, a.len() as int);
    lemma_sort_prefix_props(b, b.len() as int);
    assert(a.take(a.len() as int) =~= a);
    assert(b.take(b.len() as int) =~= b);
    lemma_unique_keys_transfer(a, sort_entries_spec(a));
    lemma_unique_keys_transfer(a, b);
    lemma_unique_keys_transfer(b, sort_entries_spec(b));
    lemma_sorted_unique_equal(sort_entries_spec(a), sort_entries_spec(b));
}

/// One host's assembly does not depend on the order its resource
/// entries were written in: two entry lists holding the same entries in
/// any order validate exactly the same group lists, tree for tree.
pub proof fn lemma_groups_order_independent(
    a: Seq<(Seq<char>, ConfigResourceModel)>,
    b: Seq<(Seq<char>, ConfigResourceModel)>,
    groups: Seq<ResourceGroup>,
    home: int,
    away: Option<int>,
    verbose: bool,
)
    requires
        unique_keys(a),
        a.to_multiset() == b.to_multiset(),
    ensures
        groups_of_host_ok(sort_entries_spec(a), groups, home, away, verbose)
            == groups_of_host_ok(sort_entries_spec(b), groups, home, away, verbose),
{
    lemma_assembly_order_independent(a, b);
}

/// Every failover pair names exactly two hosts.
pub open spec fn pairs_wf(ps: Seq<Seq<Seq<char>>>) -> bool {
    forall|i: int| 0 <= i < ps.len() ==> (#[trigger] ps[i]).len() == 2
}

/// The partner a pair list assigns to a host, if any: the other element
/// of the first pair naming it.
pub open spec fn partner_of(ps: Seq<Seq<Seq<char>>>, name: Seq<char>) -> Option<Seq<char>>
    decreases ps.len(),
{
    if ps.len() == 0 {
        None
    } else if ps[0][0] == name {
        Some(ps[0][1])
    } else if ps[0][1] == name {
        Some(ps[0][0])
    } else {
        partner_of(ps.skip(1), name)
    }
}

/// Given a list of failover pairs and a hostname, its partner, if one
/// exists.
pub fn get_failover_partner(pairs: &Vec<Vec<String>>, name: &str) -> (r: Option<String>)
    requires
        pairs_wf(pairs.deep_view()),
    ensures
        match r {
            Some(p) => partner_of(pairs.deep_view(), name@) == Some(p@),
            None => partner_of(pairs.deep_view(), name@) is None,
        },
{
    let ghost pm = pairs.deep_view();
    let mut i: usize = 0;
    proof {
        assert(pm.skip(0) =~= pm);
    }
    while i < pairs.len()
        invariant
            0 <= i <= pairs@.len(),
            pm == pairs.deep_view(),
            pm.len() == pairs@.len(),
            pairs_wf(pm),
            partner_of(pm, name@) == partner_of(pm.skip(i as int), name@),
        decreases pairs@.len() - i,
    {
        proof {
            assert(pm[i as int] == pairs@[i as int].deep_view());
            assert(pm[i as int][0] == pairs@[i as int]@[0]@);
            assert(pm[i as int][1] == pairs@[i as int]@[1]@);
            assert(pm.skip(i as int)[0] == pm[i as int]);
            assert(pm.skip(i as int).skip(1) =~= pm.skip(i + 1));
        }
        if str_eq(pairs[i][0].as_str(), name) {
            return Some(pairs[i][1].clone());
        }
        if str_eq(pairs[i][1].as_str(), name) {
            return Some(pairs[i][0].clone());
        }
        i = i + 1;
    }
    proof {
        assert(pm.skip(pm.len() as int) =~= Seq::<Seq<Seq<char>>>::empty());
    }
    None
}

/// The first position of a configured host with this hostname.
pub open spec fn hostname_index(hosts: Seq<config::Host>, name: Seq<char>) -> Option<int>
    decreases hosts.len(),
{
    if hosts.len() == 0 {
        None
    } else if hosts[0].hostname@ == name {
        Some(0int)
    } else {
        match hostname_index(hosts.skip(1), name) {
            Some(i) => Some(i + 1),
            None => None,
        }
    }
}

fn find_host_index(hosts: &Vec<config::Host>, name: &str) -> (r: Option<usize>)
    ensures
        match r {
            Some(j) => hostname_index(hosts@, name@) == Some(j as int) && j < hosts@.len(),
            None => hostname_index(hosts@, name@) is None,
        },
{
    let mut i: usize = 0;
    while i < hosts.len()
        invariant
            0 <= i <= hosts@.len(),
            forall|j: int| 0 <= j < i ==> (#[trigger] hosts@[j]).hostname@ != name@,
        decreases hosts@.len() - i,
    {
        if str_eq(hosts[i].hostname.as_str(), name) {
            proof {
                lemma_hostname_index_is(hosts@, name@, i as int);
            }
            return Some(i);
        }
        i = i + 1;
    }
    proof {
        lemma_hostname_index_none(hosts@, name@);
    }
    None
}

proof fn lemma_hostname_index_is(hosts: Seq<config::Host>, name: Seq<char>, i: int)
    requires
        0 <= i < hosts.len(),
        hosts[i].hostname@ == name,
        forall|j: int| 0 <= j < i ==> (#[trigger] hosts[j]).hostname@ != name,
    ensures
        hostname_index(hosts, name) == Some(i),
    decreases hosts.len(),
{
    if i > 0 {
        assert(forall|j: int| 0 <= j < i - 1 ==> hosts.skip(1)[j] == hosts[j + 1]);
        assert(hosts.skip(1)[i - 1] == hosts[i]);
        lemma_hostname_index_is(hosts.skip(1), name, i - 1);
    }
}

proof fn lemma_hostname_index_none(hosts: Seq<config::Host>, name: Seq<char>)
    requires
        forall|j: int| 0 <= j < hosts.len() ==> (#[trigger] hosts[j]).hostname@ != name,
    ensures
        hostname_index(hosts, name) is None,
    decreases hosts.len(),
{
    if hosts.len() > 0 {
        assert(forall|j: int| 0 <= j < hosts.len() - 1 ==> hosts.skip(1)[j] == hosts[j + 1]);
        lemma_hostname_index_none(hosts.skip(1), name);
    }
}

/// The host index a resource's failover binding resolves to: the
/// partner named by the pair list, found among the configured hosts.
pub open spec fn away_index_spec(
    hosts: Seq<config::Host>,
    pairs: Option<Seq<Seq<Seq<char>>>>,
    name: Seq<char>,
) -> Option<int> {
    match pairs {
        None => None,
        Some(ps) => match partner_of(ps, name) {
            Some(pn) => hostname_index(hosts, pn),
            None => None,
        },
    }
}

/// The group list is laid out host by host: for each configured host,
/// in order, one group per root of its sorted entries.
pub open spec fn groups_layout(
    all_hosts: Seq<config::Host>,
    pairs: Option<Seq<Seq<Seq<char>>>>,
    hosts_prefix: Seq<config::Host>,
    groups: Seq<ResourceGroup>,
    verbose: bool,
) -> bool
    decreases hosts_prefix.len(),
{
    if hosts_prefix.len() == 0 {
        groups.len() == 0
    } else {
        let ch = hosts_prefix.last();
        let em = sort_entries_spec(entries_model(ch.resources@));
        let n = root_ids(em).len() as int;
        &&& groups.len() >= n
        &&& groups_of_host_ok(
            em,
            groups.skip(groups.len() - n),
            hosts_prefix.len() - 1,
            away_index_spec(all_hosts, pairs, ch.hostname@),
            verbose,
        )
        &&& groups_layout(
            all_hosts,
            pairs,
            hosts_prefix.drop_last(),
            groups.take(groups.len() - n),
            verbose,
        )
    }
}

/// The in-memory model of the cluster: its resource groups, and the
/// hosts they run on.
pub struct Cluster {
    pub resource_groups: Vec<ResourceGroup>,
    pub num_zpools: usize,
    pub num_targets: usize,
    /// Hosts, with `get_host` addressing them by their stable identity.
    pub hosts: Vec<Host>,
    /// The shared manager context: verbose output stream and arguments.
    pub context: MgrContext,
}

/// Everything the assembled cluster promises of itself relative to the
/// configuration it was built from.
pub open spec fn cluster_built_ok(
    config: config::Config,
    c: Cluster,
    default_port: u16,
    verbose: bool,
) -> bool {
    &&& match config.failover_pairs {
        Some(ps) => pairs_wf(ps.deep_view()),
        None => true,
    }
    &&& match config.failover_pairs {
        Some(ps) => forall|h: int|
            0 <= h < config.hosts@.len() ==> (partner_of(
                ps.deep_view(),
                (#[trigger] config.hosts@[h]).hostname@,
            ) matches Some(pn) && hostname_index(config.hosts@, pn) is Some),
        None => true,
    }
    &&& c.hosts@.len() == config.hosts@.len()
    &&& forall|h: int|
        0 <= h < config.hosts@.len() ==> crate::host::address_wf(
            (#[trigger] config.hosts@[h]).hostname@,
        )
    &&& forall|h: int|
        0 <= h < config.hosts@.len() ==> match (#[trigger] config.hosts@[h]).fence_agent {
            None => true,
            Some(a) => crate::host::fence_buildable(
                a@,
                crate::host::fence_params_model(config.hosts@[h].fence_parameters),
            ),
        }
    &&& forall|h: int|
        0 <= h < config.hosts@.len() ==> crate::host::host_built_ok(
            #[trigger] config.hosts@[h],
            c.hosts@[h],
            default_port,
        )
    &&& groups_layout(
        config.hosts@,
        match config.failover_pairs {
            Some(ps) => Some(ps.deep_view()),
            None => None,
        },
        config.hosts@,
        c.resource_groups@,
        verbose,
    )
    &&& c.num_zpools == c.resource_groups@.len()
    &&& c.num_zpools + c.num_targets == total_members(c.resource_groups@)
}

/// The defect each configuration error stands for: every error the
/// assembly reports names something genuinely wrong with the document.
pub open spec fn config_rejected(config: config::Config, e: config::ConfigError) -> bool {
    match e {
        config::ConfigError::InvalidFailoverPair => match config.failover_pairs {
            Some(ps) => !pairs_wf(ps.deep_view()),
            None => false,
        },
        config::ConfigError::MissingFailoverPartner => match config.failover_pairs {
            Some(ps) => exists|h: int|
                0 <= h < config.hosts@.len() && partner_of(
                    ps.deep_view(),
                    (#[trigger] config.hosts@[h]).hostname@,
                ) is None,
            None => false,
        },
        config::ConfigError::UnknownFailoverHost => match config.failover_pairs {
            Some(ps) => exists|h: int|
                0 <= h < config.hosts@.len() && (partner_of(
                    ps.deep_view(),
                    (#[trigger] config.hosts@[h]).hostname@,
                ) matches Some(pn) && hostname_index(config.hosts@, pn) is None),
            None => false,
        },
        config::ConfigError::BadHostAddress => exists|h: int|
            0 <= h < config.hosts@.len() && !crate::host::address_wf(
                (#[trigger] config.hosts@[h]).hostname@,
            ),
        config::ConfigError::Fence(_) => exists|h: int|
            0 <= h < config.hosts@.len() && ((#[trigger] config.hosts@[h]).fence_agent matches Some(
                a,
            ) && !crate::host::fence_buildable(
                a@,
                crate::host::fence_params_model(config.hosts@[h].fence_parameters),
            )),
        config::ConfigError::DuplicateResourceId => exists|h: int|
            0 <= h < config.hosts@.len() && !unique_keys(
                sort_entries_spec(entries_model((#[trigger] config.hosts@[h]).resources@)),
            ),
        config::ConfigError::UnresolvedRequires => exists|h: int|
            0 <= h < config.hosts@.len() && !all_requires_resolve(
                sort_entries_spec(entries_model((#[trigger] config.hosts@[h]).resources@)),
            ),
        config::ConfigError::RootNotAPool => exists|h: int|
            0 <= h < config.hosts@.len() && !roots_are_pools(
                sort_entries_spec(entries_model((#[trigger] config.hosts@[h]).resources@)),
            ),
        config::ConfigError::DependencyCycle => exists|h: int|
            0 <= h < config.hosts@.len() && !acyclic(
                sort_entries_spec(entries_model((#[trigger] config.hosts@[h]).resources@)),
            ),
        config::ConfigError::MalformedMountLine => false,
    }
}

impl Cluster {
    /// Assemble the cluster from a parsed configuration document: build
    /// every host, resolve failover partners, and build each host's
    /// resource trees, with `requires` edges resolved symbolically.
    pub fn from_config(config: config::Config, context: MgrContext, default_port: u16) -> (r:
        Result<Cluster, config::ConfigError>)
        ensures
            match r {
                Ok(c) => cluster_built_ok(config, c, default_port, context.args.verbose)
                    && c.context == context,
                Err(e) => config_rejected(config, e),
            },
    {
        let verbose = context.args.verbose;
        let ghost pairs_dv: Option<Seq<Seq<Seq<char>>>> = match &config.failover_pairs {
            Some(ps) => Some(ps.deep_view()),
            None => None,
        };
        if let Some(pairs) = &config.failover_pairs {
            let mut i: usize = 0;
            while i < pairs.len()
                invariant
                    0 <= i <= pairs@.len(),
                    config.failover_pairs == Some(*pairs),
                    pairs.deep_view().len() == pairs@.len(),
                    forall|j: int| 0 <= j < i ==> (#[trigger] pairs.deep_view()[j]).len() == 2,
                decreases pairs@.len() - i,
            {
                proof {
                    assert(pairs.deep_view()[i as int] == pairs@[i as int].deep_view());
                    assert(pairs@[i as int].deep_view().len() == pairs@[i as int]@.len());
                }
                if pairs[i].len() != 2 {
                    proof {
                        assert((#[trigger] pairs.deep_view()[i as int]).len() != 2);
                        assert(config.failover_pairs is Some);
                        assert(config.failover_pairs matches Some(ps) && ps == *pairs);
                        assert(!pairs_wf(pairs.deep_view()));
                        assert(match config.failover_pairs {
                            Some(ps) => !pairs_wf(ps.deep_view()),
                            None => false,
                        });
                    }
                    return Err(config::ConfigError::InvalidFailoverPair);
                }
                i = i + 1;
            }
        }
        let mut hosts: Vec<Host> = Vec::new();
        let mut h: usize = 0;
        while h < config.hosts.len()
            invariant
                0 <= h <= config.hosts@.len(),
                hosts@.len() == h,
                forall|j: int|
                    0 <= j < h ==> host_built_ok(
                        #[trigger] config.hosts@[j],
                        hosts@[j],
                        default_port,
                    ),
                forall|j: int|
                    0 <= j < h ==> crate::host::address_wf(
                        (#[trigger] config.hosts@[j]).hostname@,
                    ),
                forall|j: int|
                    0 <= j < h ==> match (#[trigger] config.hosts@[j]).fence_agent {
                        None => true,
                        Some(a) => crate::host::fence_buildable(
                            a@,
                            crate::host::fence_params_model(config.hosts@[j].fence_parameters),
                        ),
                    },
            decreases config.hosts@.len() - h,
        {
            let built = match Host::from_config(&config.hosts[h], default_port) {
                Ok(b) => b,
                Err(e) => {
                    return Err(e);
                },
            };
            hosts.push(built);
            h = h + 1;
        }
        let mut groups: Vec<ResourceGroup> = Vec::new();
        let mut h: usize = 0;
        proof {
            assert(config.hosts@.take(0) =~= Seq::<config::Host>::empty());
        }
        while h < config.hosts.len()
            invariant
                0 <= h <= config.hosts@.len(),
                pairs_dv == match config.failover_pairs {
                    Some(ps) => Some(ps.deep_view()),
                    None => None,
                },
                match config.failover_pairs {
                    Some(ps) => pairs_wf(ps.deep_view()),
                    None => true,
                },
                match config.failover_pairs {
                    Some(ps) => forall|j: int|
                        0 <= j < h ==> (partner_of(
                            ps.deep_view(),
                            (#[trigger] config.hosts@[j]).hostname@,
                        ) matches Some(pn) && hostname_index(config.hosts@, pn) is Some),
                    None => true,
                },
                groups_layout(
                    config.hosts@,
                    pairs_dv,
                    config.hosts@.take(h as int),
                    groups@,
                    verbose,
                ),
            decreases config.hosts@.len() - h,
        {
            let ch = &config.hosts[h];
            let away: Option<usize> = match &config.failover_pairs {
                Some(pairs) => {
                    let pn = match get_failover_partner(pairs, ch.hostname.as_str()) {
                        Some(p) => p,
                        None => {
                            proof {
                                assert(partner_of(pairs.deep_view(), config.hosts@[h as int].hostname@)
                                    is None);
                            }
                            return Err(config::ConfigError::MissingFailoverPartner);
                        },
                    };
                    match find_host_index(&config.hosts, pn.as_str()) {
                        Some(j) => Some(j),
                        None => {
                            return Err(config::ConfigError::UnknownFailoverHost);
                        },
                    }
                },
                None => None,
            };
            let ghost pre_groups = groups@;
            let mut gs = match Cluster::one_host_resource_groups(ch, h, away, verbose) {
                Ok(gs) => gs,
                Err(e) => {
                    proof {
                        match e {
                            config::ConfigError::DuplicateResourceId => {
                                assert(!unique_keys(
                                    sort_entries_spec(
                                        entries_model(config.hosts@[h as int].resources@),
                                    ),
                                ));
                            },
                            _ => {},
                        }
                    }
                    return Err(e);
                },
            };
            let ghost gsv = gs@;
            groups.append(&mut gs);
            proof {
                let hp = config.hosts@.take(h + 1);
                assert(hp.last() == config.hosts@[h as int]);
                assert(hp.drop_last() =~= config.hosts@.take(h as int));
                let em = sort_entries_spec(entries_model(config.hosts@[h as int].resources@));
                let n = root_ids(em).len() as int;
                assert(gsv.len() == n);
                assert(groups@ =~= pre_groups + gsv);
                assert(groups@.skip(groups@.len() - n) =~= gsv);
                assert(groups@.take(groups@.len() - n) =~= pre_groups);
                assert(away_index_spec(config.hosts@, pairs_dv, config.hosts@[h as int].hostname@)
                    == match away {
                    Some(a) => Some(a as int),
                    None => None,
                });
                assert(groups_layout(config.hosts@, pairs_dv, hp, groups@, verbose));
            }
            h = h + 1;
        }
        proof {
            assert(config.hosts@.take(config.hosts@.len() as int) =~= config.hosts@);
        }
        let num_zpools = groups.len();
        let mut all: Vec<Resource> = Vec::new();
        let mut g: usize = 0;
        proof {
            assert(total_members(groups@.take(0)) == 0);
        }
        while g < groups.len()
            invariant
                0 <= g <= groups@.len(),
                all@.len() == total_members(groups@.take(g as int)),
                all@.len() >= g,
            decreases groups@.len() - g,
        {
            let mut rs = groups[g].resources();
            proof {
                let gm = groups@[g as int];
                assert(groups@.take(g + 1).drop_last() =~= groups@.take(g as int));
                assert(groups@.take(g + 1).last() == gm);
                assert(rs@.len() == gm.members().len());
                assert(gm.members().len() >= 1) by {
                    assert(gm.members() == crate::resource::bfs_from(seq![gm.root@]));
                }
            }
            all.append(&mut rs);
            g = g + 1;
        }
        let num_targets = all.len() - num_zpools;
        proof {
            assert(groups@.take(groups@.len() as int) =~= groups@);
        }
        Ok(Cluster { resource_groups: groups, num_zpools, num_targets, hosts, context })
    }
}

/// Every resource of the cluster, group by group, breadth-first inside
/// each group: the cluster's enumeration order.
pub open spec fn cluster_members(groups: Seq<ResourceGroup>) -> Seq<ResourceModel>
    decreases groups.len(),
{
    if groups.len() == 0 {
        Seq::empty()
    } else {
        groups[0].members() + cluster_members(groups.skip(1))
    }
}

/// The members of a given agent kind, in enumeration order.
pub open spec fn filter_kind(ms: Seq<ResourceModel>, kind: Seq<char>) -> Seq<ResourceModel>
    decreases ms.len(),
{
    if ms.len() == 0 {
        Seq::empty()
    } else if ms[0].kind == kind {
        seq![ms[0]] + filter_kind(ms.skip(1), kind)
    } else {
        filter_kind(ms.skip(1), kind)
    }
}

/// A resource whose `kind` parameter names the management target.
pub open spec fn is_mgs(m: ResourceModel) -> bool {
    crate::host::assoc_get(m.parameters, "kind"@) == Some("mgs"@)
}

/// The Lustre members that are not the management target.
pub open spec fn filter_lustre_no_mgs(ms: Seq<ResourceModel>) -> Seq<ResourceModel>
    decreases ms.len(),
{
    if ms.len() == 0 {
        Seq::empty()
    } else if ms[0].kind == "lustre/Lustre"@ && !is_mgs(ms[0]) {
        seq![ms[0]] + filter_lustre_no_mgs(ms.skip(1))
    } else {
        filter_lustre_no_mgs(ms.skip(1))
    }
}

/// The first Lustre member that is the management target, if any.
pub open spec fn first_mgs(ms: Seq<ResourceModel>) -> Option<ResourceModel>
    decreases ms.len(),
{
    if ms.len() == 0 {
        None
    } else if ms[0].kind == "lustre/Lustre"@ && is_mgs(ms[0]) {
        Some(ms[0])
    } else {
        first_mgs(ms.skip(1))
    }
}

/// The first host carrying a stable identity, if any.
pub open spec fn host_index_by_id(hosts: Seq<Host>, name: Seq<char>) -> Option<int>
    decreases hosts.len(),
{
    if hosts.len() == 0 {
        None
    } else if crate::host::host_id_spec(hosts[0]) == name {
        Some(0int)
    } else {
        match host_index_by_id(hosts.skip(1), name) {
            Some(i) => Some(i + 1),
            None => None,
        }
    }
}

impl Cluster {
    /// The cluster's enumeration, as the control channel reports it.
    pub open spec fn members_all(self) -> Seq<ResourceModel> {
        cluster_members(self.resource_groups@)
    }

    pub fn num_zpools(&self) -> (r: usize)
        ensures
            r == self.num_zpools,
    {
        self.num_zpools
    }

    pub fn num_targets(&self) -> (r: usize)
        ensures
            r == self.num_targets,
    {
        self.num_targets
    }

    pub fn hosts(&self) -> (r: &Vec<Host>)
        ensures
            r@ == self.hosts@,
    {
        &self.hosts
    }

    /// Look a host up by its stable identity.
    pub fn get_host(&self, name: &str) -> (r: Option<&Host>)
        ensures
            match r {
                Some(h) => host_index_by_id(self.hosts@, name@) matches Some(i) && *h
                    == self.hosts@[i],
                None => host_index_by_id(self.hosts@, name@) is None,
            },
    {
        let mut i: usize = 0;
        while i < self.hosts.len()
            invariant
                0 <= i <= self.hosts@.len(),
                forall|j: int|
                    0 <= j < i ==> crate::host::host_id_spec(#[trigger] self.hosts@[j]) != name@,
            decreases self.hosts@.len() - i,
        {
            let id = self.hosts[i].id();
            if str_eq(id.as_str(), name) {
                proof {
                    lemma_host_index_by_id_is(self.hosts@, name@, i as int);
                }
                return Some(&self.hosts[i]);
            }
            i = i + 1;
        }
        proof {
            lemma_host_index_by_id_none(self.hosts@, name@);
        }
        None
    }

    /// Every resource of the cluster, each with its subtree, in
    /// enumeration order.
    pub fn resources(&self) -> (r: Vec<Resource>)
        ensures
            crate::resource::models_of(r@) == self.members_all(),
    {
        let ghost gm = self.resource_groups@;
        let mut out: Vec<Resource> = Vec::new();
        let mut g: usize = 0;
        proof {
            assert(gm.skip(0) =~= gm);
            assert(crate::resource::models_of(out@) + cluster_members(gm) =~= cluster_members(gm));
        }
        while g < self.resource_groups.len()
            invariant
                0 <= g <= gm.len(),
                gm == self.resource_groups@,
                crate::resource::models_of(out@) + cluster_members(gm.skip(g as int))
                    == cluster_members(gm),
            decreases gm.len() - g,
        {
            let ghost pre = crate::resource::models_of(out@);
            let mut rs = self.resource_groups[g].resources();
            let ghost rsm = crate::resource::models_of(rs@);
            out.append(&mut rs);
            proof {
                assert(gm.skip(g as int)[0] == gm[g as int]);
                assert(gm.skip(g as int).skip(1) =~= gm.skip(g + 1));
                assert(cluster_members(gm.skip(g as int)) == gm[g as int].members()
                    + cluster_members(gm.skip(g + 1)));
                assert(crate::resource::models_of(out@) =~= pre + rsm);
                assert(crate::resource::models_of(out@) + cluster_members(gm.skip(g + 1)) =~= pre
                    + cluster_members(gm.skip(g as int)));
            }
            g = g + 1;
        }
        proof {
            assert(gm.skip(gm.len() as int) =~= Seq::<ResourceGroup>::empty());
            assert(cluster_members(Seq::empty()) == Seq::<ResourceModel>::empty());
            assert(crate::resource::models_of(out@) + Seq::<ResourceModel>::empty()
                =~= crate::resource::models_of(out@));
        }
        out
    }

    /// The storage-pool members.
    pub fn zpool_resources(&self) -> (r: Vec<Resource>)
        ensures
            crate::resource::models_of(r@) == filter_kind(self.members_all(), "heartbeat/ZFS"@),
    {
        let all = self.resources();
        let mut out: Vec<Resource> = Vec::new();
        let ghost ms = self.members_all();
        let mut i: usize = 0;
        proof {
            assert(ms.skip(0) =~= ms);
            assert(crate::resource::models_of(out@) + filter_kind(ms, "heartbeat/ZFS"@)
                =~= filter_kind(ms, "heartbeat/ZFS"@));
        }
        while i < all.len()
            invariant
                0 <= i <= all@.len(),
                crate::resource::models_of(all@) == ms,
                all@.len() == ms.len(),
                crate::resource::models_of(out@) + filter_kind(ms.skip(i as int), "heartbeat/ZFS"@)
                    == filter_kind(ms, "heartbeat/ZFS"@),
            decreases all@.len() - i,
        {
            let ghost pre = crate::resource::models_of(out@);
            proof {
                assert(ms[i as int] == all@[i as int]@);
                assert(ms.skip(i as int)[0] == ms[i as int]);
                assert(ms.skip(i as int).skip(1) =~= ms.skip(i + 1));
                reveal_strlit("heartbeat/ZFS");
            }
            if str_eq(all[i].kind.as_str(), "heartbeat/ZFS") {
                let d = all[i].duplicate();
                out.push(d);
                proof {
                    assert(crate::resource::models_of(out@) =~= pre.push(ms[i as int]));
                    assert(pre.push(ms[i as int]) =~= pre + seq![ms[i as int]]);
                }
            }
            i = i + 1;
        }
        proof {
            assert(ms.skip(ms.len() as int) =~= Seq::<ResourceModel>::empty());
            assert(crate::resource::models_of(out@) + filter_kind(
                Seq::empty(),
                "heartbeat/ZFS"@,
            ) =~= crate::resource::models_of(out@));
        }
        out
    }

    /// The Lustre target members.
    pub fn lustre_resources(&self) -> (r: Vec<Resource>)
        ensures
            crate::resource::models_of(r@) == filter_kind(self.members_all(), "lustre/Lustre"@),
    {
        let all = self.resources();
        let mut out: Vec<Resource> = Vec::new();
        let ghost ms = self.members_all();
        let mut i: usize = 0;
        proof {
            assert(ms.skip(0) =~= ms);
            assert(crate::resource::models_of(out@) + filter_kind(ms, "lustre/Lustre"@)
                =~= filter_kind(ms, "lustre/Lustre"@));
        }
        while i < all.len()
            invariant
                0 <= i <= all@.len(),
                crate::resource::models_of(all@) == ms,
                all@.len() == ms.len(),
                crate::resource::models_of(out@) + filter_kind(ms.skip(i as int), "lustre/Lustre"@)
                    == filter_kind(ms, "lustre/Lustre"@),
            decreases all@.len() - i,
        {
            let ghost pre = crate::resource::models_of(out@);
            proof {
                assert(ms[i as int] == all@[i as int]@);
                assert(ms.skip(i as int)[0] == ms[i as int]);
                assert(ms.skip(i as int).skip(1) =~= ms.skip(i + 1));
            }
            if str_eq(all[i].kind.as_str(), "lustre/Lustre") {
                let d = all[i].duplicate();
                out.push(d);
                proof {
                    assert(crate::resource::models_of(out@) =~= pre.push(ms[i as int]));
                    assert(pre.push(ms[i as int]) =~= pre + seq![ms[i as int]]);
                }
            }
            i = i + 1;
        }
        proof {
            assert(ms.skip(ms.len() as int) =~= Seq::<ResourceModel>::empty());
            assert(crate::resource::models_of(out@) + filter_kind(
                Seq::empty(),
                "lustre/Lustre"@,
            ) =~= crate::resource::models_of(out@));
        }
        out
    }

    /// The Lustre members apart from the management target.
    pub fn lustre_resources_no_mgs(&self) -> (r: Vec<Resource>)
        ensures
            crate::resource::models_of(r@) == filter_lustre_no_mgs(self.members_all()),
    {
        let all = self.resources();
        let mut out: Vec<Resource> = Vec::new();
        let ghost ms = self.members_all();
        let mut i: usize = 0;
        proof {
            assert(ms.skip(0) =~= ms);
            assert(crate::resource::models_of(out@) + filter_lustre_no_mgs(ms)
                =~= filter_lustre_no_mgs(ms));
        }
        while i < all.len()
            invariant
                0 <= i <= all@.len(),
                crate::resource::models_of(all@) == ms,
                all@.len() == ms.len(),
                crate::resource::models_of(out@) + filter_lustre_no_mgs(ms.skip(i as int))
                    == filter_lustre_no_mgs(ms),
            decreases all@.len() - i,
        {
            let ghost pre = crate::resource::models_of(out@);
            proof {
                assert(ms[i as int] == all@[i as int]@);
                assert(ms.skip(i as int)[0] == ms[i as int]);
                assert(ms.skip(i as int).skip(1) =~= ms.skip(i + 1));
            }
            let is_lustre = str_eq(all[i].kind.as_str(), "lustre/Lustre");
            let keeps = if is_lustre {
                match crate::host::get_param(&all[i].parameters, "kind") {
                    Some(k) => !str_eq(k.as_str(), "mgs"),
                    None => true,
                }
            } else {
                false
            };
            if keeps {
                let d = all[i].duplicate();
                out.push(d);
                proof {
                    assert(!is_mgs(ms[i as int]));
                    assert(crate::resource::models_of(out@) =~= pre.push(ms[i as int]));
                    assert(pre.push(ms[i as int]) =~= pre + seq![ms[i as int]]);
                }
            } else {
                proof {
                    if is_lustre {
                        assert(is_mgs(ms[i as int]));
                    }
                }
            }
            i = i + 1;
        }
        proof {
            assert(ms.skip(ms.len() as int) =~= Seq::<ResourceModel>::empty());
            assert(crate::resource::models_of(out@) + filter_lustre_no_mgs(Seq::empty())
                =~= crate::resource::models_of(out@));
        }
        out
    }

    /// The management target, if the cluster has one.
    pub fn get_mgs(&self) -> (r: Option<Resource>)
        ensures
            match r {
                Some(m) => first_mgs(self.members_all()) == Some(m@),
                None => first_mgs(self.members_all()) is None,
            },
    {
        let all = self.resources();
        let ghost ms = self.members_all();
        let mut i: usize = 0;
        proof {
            assert(ms.skip(0) =~= ms);
        }
        while i < all.len()
            invariant
                0 <= i <= all@.len(),
                ms == self.members_all(),
                crate::resource::models_of(all@) == ms,
                all@.len() == ms.len(),
                first_mgs(ms) == first_mgs(ms.skip(i as int)),
            decreases all@.len() - i,
        {
            proof {
                assert(ms[i as int] == all@[i as int]@);
                assert(ms.skip(i as int)[0] == ms[i as int]);
                assert(ms.skip(i as int).skip(1) =~= ms.skip(i + 1));
            }
            let is_lustre = str_eq(all[i].kind.as_str(), "lustre/Lustre");
            if is_lustre {
                let found = match crate::host::get_param(&all[i].parameters, "kind") {
                    Some(k) => str_eq(k.as_str(), "mgs"),
                    None => false,
                };
                if found {
                    proof {
                        assert(is_mgs(ms[i as int]));
                        assert(first_mgs(ms.skip(i as int)) == Some(ms[i as int]));
                    }
                    return Some(all[i].duplicate());
                }
                proof {
                    assert(!is_mgs(ms[i as int]));
                }
            }
            i = i + 1;
        }
        proof {
            assert(ms.skip(ms.len() as int) =~= Seq::<ResourceModel>::empty());
        }
        None
    }

    /// One manage tick of one group, without a failover host: dispatch
    /// on the group's aggregate status, recompute it, and record the
    /// verdict on the home host's power status — unknown when a monitor
    /// pass saw a transport failure, up when it went through cleanly.
    pub fn manage_tick_group(&mut self, g: usize, outcomes: &OutcomeTree) -> (r:
        crate::resource::NonHaTickReport)
        requires
            g < old(self).resource_groups@.len(),
            crate::resource::mirrors(outcomes@, old(self).resource_groups@[g as int].root@),
            old(self).resource_groups@[g as int].root@.home_node < old(self).hosts@.len(),
        ensures
            final(self).resource_groups@.len() == old(self).resource_groups@.len(),
            forall|j: int|
                0 <= j < old(self).resource_groups@.len() && j != g
                    ==> final(self).resource_groups@[j] == old(self).resource_groups@[j],
            final(self).hosts@.len() == old(self).hosts@.len(),
            r.invalid_state == crate::resource::non_ha_invalid(
                old(self).resource_groups@[g as int].overall(),
            ),
            r.invalid_state ==> final(self).resource_groups@[g as int].overall()
                == ResourceStatus::Unknown,
            !r.invalid_state ==> crate::resource::aggregate_of(
                final(self).resource_groups@[g as int].members(),
                final(self).resource_groups@[g as int].overall(),
            ),
            match r.monitor_error {
                Some(error_seen) => {
                    let home = old(self).resource_groups@[g as int].root@.home_node;
                    &&& final(self).hosts@[home].status == if error_seen {
                        crate::host::HostStatus::Unknown
                    } else {
                        crate::host::HostStatus::Up
                    }
                    &&& forall|j: int|
                        0 <= j < old(self).hosts@.len() && j != home ==> final(self).hosts@[j]
                            == old(self).hosts@[j]
                },
                None => final(self).hosts@ == old(self).hosts@,
            },
    {
        let ghost home = self.resource_groups@[g as int].root@.home_node;
        let home_idx = self.resource_groups[g].root.home_node;
        proof {
            assert(home == home_idx as int);
        }
        let group = &mut self.resource_groups[g];
        let report = group.manage_tick_non_ha(outcomes);
        if let Some(error_seen) = report.monitor_error {
            let status = if error_seen {
                crate::host::HostStatus::Unknown
            } else {
                crate::host::HostStatus::Up
            };
            let ghost pre_hosts = self.hosts@;
            let host = &mut self.hosts[home_idx];
            let res = host.set_status(status);
            proof {
                assert(status != crate::host::HostStatus::Down);
                assert(res is Ok);
                assert(self.hosts@ =~= pre_hosts.update(home, self.hosts@[home]));
            }
        }
        report
    }

    /// The address an operation on `res` at `loc` goes to: the home
    /// host's, or the failover host's — which must exist and be one of
    /// the cluster's hosts.
    pub fn target_address(&self, res: &Resource, loc: crate::resource::Location) -> (r: Result<
        String,
        crate::resource::RpcError,
    >)
        ensures
            match loc {
                crate::resource::Location::Home => if (res.home_node as int) < self.hosts@.len() {
                    r matches Ok(a) && a@ == self.hosts@[res.home_node as int].name@ + ":"@
                        + crate::strutil::dec_str(self.hosts@[res.home_node as int].port as int)
                } else {
                    r is Err
                },
                crate::resource::Location::Away => match res.failover_node {
                    Some(i) => if (i as int) < self.hosts@.len() {
                        r matches Ok(a) && a@ == self.hosts@[i as int].name@ + ":"@
                            + crate::strutil::dec_str(self.hosts@[i as int].port as int)
                    } else {
                        r is Err
                    },
                    None => r is Err,
                },
            },
    {
        let idx = match loc {
            crate::resource::Location::Home => res.home_node,
            crate::resource::Location::Away => match res.failover_node {
                Some(i) => i,
                None => {
                    return Err(
                        crate::resource::RpcError {
                            message:
                                "operation aimed at a failover host of a resource without one".to_owned(),
                        },
                    );
                },
            },
        };
        if idx >= self.hosts.len() {
            return Err(
                crate::resource::RpcError { message: "no host bound at that index".to_owned() },
            );
        }
        Ok(self.hosts[idx].address())
    }

    /// The snapshot the control channel replies with: each resource's
    /// status and parameters, in enumeration order.
    pub fn snapshot(&self) -> (r: Vec<(ResourceStatus, Vec<(String, String)>)>)
        ensures
            r@.len() == self.members_all().len(),
            forall|i: int|
                0 <= i < r@.len() ==> (#[trigger] r@[i]).0 == self.members_all()[i].status
                    && params_model(r@[i].1@) == self.members_all()[i].parameters,
    {
        let all = self.resources();
        let ghost ms = self.members_all();
        let mut out: Vec<(ResourceStatus, Vec<(String, String)>)> = Vec::new();
        let mut i: usize = 0;
        while i < all.len()
            invariant
                0 <= i <= all@.len(),
                crate::resource::models_of(all@) == ms,
                all@.len() == ms.len(),
                out@.len() == i,
                forall|j: int|
                    0 <= j < i ==> (#[trigger] out@[j]).0 == ms[j].status && params_model(
                        out@[j].1@,
                    ) == ms[j].parameters,
            decreases all@.len() - i,
        {
            proof {
                assert(ms[i as int] == all@[i as int]@);
            }
            let st = all[i].get_status();
            let ps = clone_params(&all[i].parameters);
            out.push((st, ps));
            i = i + 1;
        }
        out
    }
}

proof fn lemma_host_index_by_id_is(hosts: Seq<Host>, name: Seq<char>, i: int)
    requires
        0 <= i < hosts.len(),
        crate::host::host_id_spec(hosts[i]) == name,
        forall|j: int| 0 <= j < i ==> crate::host::host_id_spec(#[trigger] hosts[j]) != name,
    ensures
        host_index_by_id(hosts, name) == Some(i),
    decreases hosts.len(),
{
    if i > 0 {
        assert(forall|j: int| 0 <= j < hosts.len() - 1 ==> hosts.skip(1)[j] == hosts[j + 1]);
        lemma_host_index_by_id_is(hosts.skip(1), name, i - 1);
    }
}

proof fn lemma_host_index_by_id_none(hosts: Seq<Host>, name: Seq<char>)
    requires
        forall|j: int| 0 <= j < hosts.len() ==> crate::host::host_id_spec(#[trigger] hosts[j]) != name,
    ensures
        host_index_by_id(hosts, name) is None,
    decreases hosts.len(),
{
    if hosts.len() > 0 {
        assert(forall|j: int| 0 <= j < hosts.len() - 1 ==> hosts.skip(1)[j] == hosts[j + 1]);
        lemma_host_index_by_id_none(hosts.skip(1), name);
    }
}

/// With unique identifiers, the entry found under an index's own key is
/// that index's entry.
proof fn lemma_entry_at_of_index(s: Seq<(Seq<char>, ConfigResourceModel)>, i: int)
    requires
        unique_keys(s),
        0 <= i < s.len(),
    ensures
        entry_at(s, s[i].0) == Some(s[i].1),
    decreases s.len(),
{
    if i > 0 {
        assert(s[0].0 != s[i].0);
        assert(forall|a: int, b: int|
            0 <= a < b < s.len() - 1 ==> (#[trigger] s.skip(1)[a]).0 != (#[trigger] s.skip(
                1,
            )[b]).0) by {
            assert(forall|a: int| 0 <= a < s.len() - 1 ==> s.skip(1)[a] == s[a + 1]);
        }
        lemma_entry_at_of_index(s.skip(1), i - 1);
        assert(s.skip(1)[i - 1] == s[i]);
    }
}

} // verus!
