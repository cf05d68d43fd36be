//! The system scheduler: dependency ranks with cycle detection, conflict
//! detection between access signatures, the partition of systems into
//! conflict-free dispatch stages, and the dispatch surfaces that run them.

use vstd::prelude::*;

verus! {

/// The access mode a caller requests for one storage: shared reading or
/// exclusive writing.
#[derive(Clone, Copy, PartialEq, Eq, Structural, Debug)]
pub enum Permisions {
    Read,
    Write,
}

/// The dependency rank of system `i`, computed with bounded recursion depth:
/// zero for a system without dependencies, one more than the largest rank
/// among its dependencies otherwise, and nothing when the depth budget runs
/// out or a dependency index is out of range. Every dependency chain in an
/// acyclic declaration revisits no system, so its length is at most the
/// number of systems; a budget larger than that runs out only on a cyclic
/// declaration.
pub open spec fn rank_fuel(rel: Seq<Seq<usize>>, i: int, fuel: nat) -> Option<nat>
    decreases fuel, 0nat,
{
    if fuel == 0 {
        None
    } else if 0 <= i < rel.len() {
        if rel[i].len() == 0 {
            Some(0)
        } else {
            match max_dep_rank(rel, rel[i], (fuel - 1) as nat) {
                Some(m) => Some(m + 1),
                None => None,
            }
        }
    } else {
        None
    }
}

/// The largest rank among the listed dependencies, computed with bounded
/// recursion depth; zero when the list is empty, nothing when some listed
/// dependency has no rank within the budget.
pub open spec fn max_dep_rank(rel: Seq<Seq<usize>>, deps: Seq<usize>, fuel: nat) -> Option<nat>
    decreases fuel, deps.len(),
{
    if deps.len() == 0 {
        Some(0)
    } else {
        match (rank_fuel(rel, deps.last() as int, fuel), max_dep_rank(rel, deps.drop_last(), fuel)) {
            (Some(a), Some(b)) => Some(if a > b {
                a
            } else {
                b
            }),
            _ => None,
        }
    }
}

/// The recursion depth budget that suffices for every acyclic declaration
/// over this many systems.
pub open spec fn rank_budget(rel: Seq<Seq<usize>>) -> nat {
    (rel.len() + 1) as nat
}

/// The dependency rank of system `i`: zero without dependencies, one more
/// than the largest dependency rank otherwise, and nothing when the
/// declarations reachable from `i` contain a cycle or a dangling index.
pub open spec fn spec_rank(rel: Seq<Seq<usize>>, i: int) -> Option<nat> {
    rank_fuel(rel, i, rank_budget(rel))
}

/// The declared dependencies are acyclic and in range: every system has a
/// rank.
pub open spec fn acyclic(rel: Seq<Seq<usize>>) -> bool {
    forall|i: int| 0 <= i < rel.len() ==> (#[trigger] spec_rank(rel, i)).is_some()
}

/// A rank computed within a depth budget is below that budget.
pub proof fn lemma_rank_fuel_bound(rel: Seq<Seq<usize>>, i: int, fuel: nat)
    ensures
        rank_fuel(rel, i, fuel) matches Some(v) ==> v < fuel,
    decreases fuel, 0nat,
{
    if fuel > 0 && 0 <= i < rel.len() && rel[i].len() > 0 {
        lemma_max_dep_rank_bound(rel, rel[i], (fuel - 1) as nat);
    }
}

/// The largest rank among a non-empty dependency list, computed within a
/// depth budget, is below that budget.
pub proof fn lemma_max_dep_rank_bound(rel: Seq<Seq<usize>>, deps: Seq<usize>, fuel: nat)
    ensures
        max_dep_rank(rel, deps, fuel) matches Some(m) ==> (deps.len() == 0 ==> m == 0) && (
        deps.len() > 0 ==> m < fuel),
    decreases fuel, deps.len(),
{
    if deps.len() > 0 {
        lemma_rank_fuel_bound(rel, deps.last() as int, fuel);
        lemma_max_dep_rank_bound(rel, deps.drop_last(), fuel);
    }
}

/// A rank settles once the depth budget suffices: raising the budget never
/// changes a computed rank.
pub proof fn lemma_rank_fuel_mono(rel: Seq<Seq<usize>>, i: int, f1: nat, f2: nat)
    requires
        f1 <= f2,
        rank_fuel(rel, i, f1).is_some(),
    ensures
        rank_fuel(rel, i, f2) == rank_fuel(rel, i, f1),
    decreases f1, 0nat,
{
    if 0 <= i < rel.len() && rel[i].len() > 0 {
        lemma_max_dep_rank_mono(rel, rel[i], (f1 - 1) as nat, (f2 - 1) as nat);
    }
}

/// The largest dependency rank settles once the depth budget suffices.
pub proof fn lemma_max_dep_rank_mono(rel: Seq<Seq<usize>>, deps: Seq<usize>, f1: nat, f2: nat)
    requires
        f1 <= f2,
        max_dep_rank(rel, deps, f1).is_some(),
    ensures
        max_dep_rank(rel, deps, f2) == max_dep_rank(rel, deps, f1),
    decreases f1, deps.len(),
{
    if deps.len() > 0 {
        lemma_rank_fuel_mono(rel, deps.last() as int, f1, f2);
        lemma_max_dep_rank_mono(rel, deps.drop_last(), f1, f2);
    }
}

/// The largest dependency rank is what its name says: no listed dependency
/// ranks above it, every listed dependency has a rank, and when the list is
/// not empty some listed dependency attains it.
pub proof fn lemma_max_dep_rank_is_max(rel: Seq<Seq<usize>>, deps: Seq<usize>, fuel: nat)
    requires
        max_dep_rank(rel, deps, fuel).is_some(),
    ensures
        forall|j: int|
            0 <= j < deps.len() ==> {
                let r = #[trigger] rank_fuel(rel, deps[j] as int, fuel);
                r.is_some() && r.unwrap() <= max_dep_rank(rel, deps, fuel).unwrap()
            },
        deps.len() > 0 ==> exists|j: int|
            0 <= j < deps.len() && #[trigger] rank_fuel(rel, deps[j] as int, fuel) == Some(
                max_dep_rank(rel, deps, fuel).unwrap(),
            ),
    decreases deps.len(),
{
    if deps.len() > 0 {
        lemma_max_dep_rank_is_max(rel, deps.drop_last(), fuel);
        let m = max_dep_rank(rel, deps, fuel).unwrap();
        let a = rank_fuel(rel, deps.last() as int, fuel).unwrap();
        let b = max_dep_rank(rel, deps.drop_last(), fuel).unwrap();
        assert(forall|j: int| 0 <= j < deps.len() - 1 ==> deps.drop_last()[j] == deps[j]);
        if a >= b {
            assert(deps[deps.len() - 1] == deps.last());
        } else {
            let j0 = choose|j: int|
                0 <= j < deps.drop_last().len() && #[trigger] rank_fuel(
                    rel,
                    deps.drop_last()[j] as int,
                    fuel,
                ) == Some(b);
            assert(rank_fuel(rel, deps[j0] as int, fuel) == Some(m));
        }
    }
}

/// Law: the rank of every rankable system satisfies the defining recurrence
/// of the scheduler: zero when it declares no dependencies, one more than
/// the largest rank among its declared dependencies otherwise, each
/// dependency itself rankable.
pub proof fn lemma_rank_recurrence(rel: Seq<Seq<usize>>, i: int)
    requires
        0 <= i < rel.len(),
        spec_rank(rel, i).is_some(),
    ensures
        rel[i].len() == 0 ==> spec_rank(rel, i) == Some(0nat),
        rel[i].len() > 0 ==> {
            let m = max_dep_rank(rel, rel[i], rank_budget(rel));
            m.is_some() && spec_rank(rel, i) == Some((m.unwrap() + 1) as nat)
        },
        forall|j: int|
            0 <= j < rel[i].len() ==> (#[trigger] spec_rank(rel, rel[i][j] as int)).is_some(),
{
    let budget = rank_budget(rel);
    if rel[i].len() > 0 {
        let lower = (budget - 1) as nat;
        lemma_max_dep_rank_mono(rel, rel[i], lower, budget);
        lemma_max_dep_rank_is_max(rel, rel[i], budget);
        assert forall|j: int| 0 <= j < rel[i].len() implies (#[trigger] spec_rank(
            rel,
            rel[i][j] as int,
        )).is_some() by {
            assert(rank_fuel(rel, rel[i][j] as int, budget).is_some());
        }
    }
}

/// Visits one system and computes its dependency rank within the given depth
/// budget, following the declared dependencies recursively. Returns nothing
/// when the budget runs out or a dependency index is out of range.
pub fn visit(relationships: &Vec<Vec<usize>>, visiting: usize, fuel: usize) -> (r: Option<usize>)
    ensures
        match r {
            Some(v) => rank_fuel(relationships.deep_view(), visiting as int, fuel as nat) == Some(
                v as nat,
            ) && v < fuel,
            None => rank_fuel(relationships.deep_view(), visiting as int, fuel as nat) is None,
        },
    decreases fuel,
{
    let ghost rel = relationships.deep_view();
    proof {
        lemma_rank_fuel_bound(rel, visiting as int, fuel as nat);
    }
    if fuel == 0 {
        return None;
    }
    if visiting >= relationships.len() {
        return None;
    }
    let num = relationships[visiting].len();
    proof {
        assert(rel[visiting as int] == relationships@[visiting as int]@);
    }
    if num == 0 {
        return Some(0);
    }
    let ghost deps = rel[visiting as int];
    let mut max_chain: usize = 0;
    let mut j: usize = 0;
    while j < num
        invariant
            0 < fuel,
            j <= num,
            visiting < relationships@.len(),
            rel == relationships.deep_view(),
            deps == rel[visiting as int],
            num == deps.len(),
            max_dep_rank(rel, deps.take(j as int), (fuel - 1) as nat) == Some(max_chain as nat),
            j > 0 ==> max_chain < fuel - 1,
        decreases num - j,
    {
        let dep = relationships[visiting][j];
        proof {
            assert(dep == deps[j as int]);
        }
        match visit(relationships, dep, fuel - 1) {
            Some(chain) => {
                if chain > max_chain {
                    max_chain = chain;
                }
                proof {
                    assert(deps.take(j + 1).last() == deps[j as int]);
                    assert(deps.take(j + 1).drop_last() =~= deps.take(j as int));
                }
            },
            None => {
                proof {
                    lemma_max_dep_rank_none(rel, deps, (fuel - 1) as nat, j as int);
                }
                return None;
            },
        }
        j = j + 1;
    }
    proof {
        assert(deps.take(num as int) =~= deps);
    }
    Some(max_chain + 1)
}

/// When some listed dependency has no rank within the budget, the list as a
/// whole has no largest rank within it.
pub proof fn lemma_max_dep_rank_none(rel: Seq<Seq<usize>>, deps: Seq<usize>, fuel: nat, j: int)
    requires
        0 <= j < deps.len(),
        rank_fuel(rel, deps[j] as int, fuel) is None,
    ensures
        max_dep_rank(rel, deps, fuel) is None,
    decreases deps.len(),
{
    if deps.len() > 0 {
        if j == deps.len() - 1 {
            assert(deps.last() == deps[j]);
        } else {
            assert(deps.drop_last()[j] == deps[j]);
            lemma_max_dep_rank_none(rel, deps.drop_last(), fuel, j);
        }
    }
}

/// Computes the dependency rank of every system from its declared dependency
/// lists: the length of the longest dependency chain below it. Returns the
/// ranks by system index, or nothing when the declarations contain a cycle
/// or an out-of-range dependency index, which the bounded-depth traversal
/// detects rather than recursing forever.
pub fn get_longest_dependency_chain(relationships: &Vec<Vec<usize>>) -> (r: Option<Vec<usize>>)
    requires
        relationships@.len() < usize::MAX,
    ensures
        match r {
            Some(ranks) => acyclic(relationships.deep_view()) && ranks@.len()
                == relationships@.len() && forall|i: int|
                0 <= i < ranks@.len() ==> spec_rank(relationships.deep_view(), i) == Some(
                    #[trigger] ranks@[i] as nat,
                ),
            None => !acyclic(relationships.deep_view()),
        },
{
    let ghost rel = relationships.deep_view();
    let n = relationships.len();
    let mut ranks: Vec<usize> = Vec::new();
    let mut i: usize = 0;
    while i < n
        invariant
            i <= n,
            n == relationships@.len(),
            n < usize::MAX,
            rel == relationships.deep_view(),
            ranks@.len() == i,
            forall|k: int|
                0 <= k < i ==> spec_rank(rel, k) == Some(#[trigger] ranks@[k] as nat),
        decreases n - i,
    {
        proof {
            assert(rel.len() == n);
        }
        match visit(relationships, i, n + 1) {
            Some(rk) => {
                ranks.push(rk);
            },
            None => {
                proof {
                    assert(spec_rank(rel, i as int) is None);
                }
                return None;
            },
        }
        i = i + 1;
    }
    proof {
        assert(rel.len() == n);
        assert forall|k: int| 0 <= k < rel.len() implies (#[trigger] spec_rank(
            rel,
            k,
        )).is_some() by {
            assert(spec_rank(rel, k) == Some(ranks@[k] as nat));
        }
    }
    Some(ranks)
}

/// A system descriptor: the ordered signature of `(storage token, access
/// mode)` pairs the system requires, and the indices of the systems that must
/// complete before it runs.
pub struct SystemData {
    pub signature: Vec<(usize, Permisions)>,
    pub dependencies: Vec<usize>,
}

impl SystemData {
    /// A descriptor with the given signature and dependency list.
    pub fn new(signature: Vec<(usize, Permisions)>, dependencies: Vec<usize>) -> (s: SystemData)
        ensures
            s.signature@ == signature@,
            s.dependencies@ == dependencies@,
    {
        SystemData { signature, dependencies }
    }
}

/// The dependency lists of a set of system descriptors, by system index.
pub open spec fn deps_of(systems: Seq<SystemData>) -> Seq<Seq<usize>> {
    Seq::new(systems.len(), |i: int| systems[i].dependencies@)
}

/// Two signatures conflict when they share a storage to which at least one
/// side asks for write access: such systems must not run concurrently even
/// when their ranks are equal.
pub open spec fn spec_conflicts(
    a: Seq<(usize, Permisions)>,
    b: Seq<(usize, Permisions)>,
) -> bool {
    exists|i: int, j: int|
        0 <= i < a.len() && 0 <= j < b.len() && (#[trigger] a[i]).0 == (#[trigger] b[j]).0 && (
        a[i].1 == Permisions::Write || b[j].1 == Permisions::Write)
}

/// Decides whether two signatures conflict.
pub fn conflicts(a: &Vec<(usize, Permisions)>, b: &Vec<(usize, Permisions)>) -> (r: bool)
    ensures
        r == spec_conflicts(a@, b@),
{
    let mut i: usize = 0;
    while i < a.len()
        invariant
            i <= a@.len(),
            forall|p: int, q: int|
                0 <= p < i && 0 <= q < b@.len() ==> !((#[trigger] a@[p]).0 == (#[trigger] b@[q]).0
                    && (a@[p].1 == Permisions::Write || b@[q].1 == Permisions::Write)),
        decreases a@.len() - i,
    {
        let mut j: usize = 0;
        while j < b.len()
            invariant
                i < a@.len(),
                j <= b@.len(),
                forall|q: int|
                    0 <= q < j ==> !(a@[i as int].0 == (#[trigger] b@[q]).0 && (a@[i as int].1
                        == Permisions::Write || b@[q].1 == Permisions::Write)),
            decreases b@.len() - j,
        {
            let (ra, ma) = a[i];
            let (rb, mb) = b[j];
            if ra == rb && (ma == Permisions::Write || mb == Permisions::Write) {
                return true;
            }
            j = j + 1;
        }
        i = i + 1;
    }
    false
}

/// Every index the stages mention names a system.
pub open spec fn stages_in_range(stages: Seq<Vec<usize>>, n: int) -> bool {
    forall|s: int, k: int|
        0 <= s < stages.len() && 0 <= k < stages[s]@.len() ==> (#[trigger] stages[s]@[k]) < n
}

/// No system appears at two different positions of the stages.
pub open spec fn stages_distinct(stages: Seq<Vec<usize>>) -> bool {
    forall|s: int, k: int, s2: int, k2: int|
        0 <= s < stages.len() && 0 <= k < stages[s]@.len() && 0 <= s2 < stages.len() && 0 <= k2
            < stages[s2]@.len() && (s != s2 || k != k2) ==> #[trigger] stages[s]@[k] != #[trigger] stages[s2]@[k2]
}

/// The given system appears somewhere in the stages.
pub open spec fn stages_contain(stages: Seq<Vec<usize>>, i: usize) -> bool {
    exists|s: int, k: int|
        0 <= s < stages.len() && 0 <= k < stages[s]@.len() && #[trigger] stages[s]@[k] == i
}

/// No two systems of one stage conflict, so each stage can run concurrently.
pub open spec fn stages_conflict_free(systems: Seq<SystemData>, stages: Seq<Vec<usize>>) -> bool {
    forall|s: int, k: int, k2: int|
        0 <= s < stages.len() && 0 <= k < stages[s]@.len() && 0 <= k2 < stages[s]@.len() && k != k2
            ==> !spec_conflicts(
            systems[(#[trigger] stages[s]@[k]) as int].signature@,
            systems[(#[trigger] stages[s]@[k2]) as int].signature@,
        )
}

/// Each stage holds systems of one dependency rank.
pub open spec fn stages_rank_grouped(systems: Seq<SystemData>, stages: Seq<Vec<usize>>) -> bool {
    forall|s: int, k: int, k2: int|
        0 <= s < stages.len() && 0 <= k < stages[s]@.len() && 0 <= k2 < stages[s]@.len()
            ==> spec_rank(deps_of(systems), (#[trigger] stages[s]@[k]) as int) == spec_rank(
            deps_of(systems),
            (#[trigger] stages[s]@[k2]) as int,
        )
}

/// Stages come in ascending dependency-rank order.
pub open spec fn stages_rank_sorted(systems: Seq<SystemData>, stages: Seq<Vec<usize>>) -> bool {
    forall|s: int, k: int, s2: int, k2: int|
        0 <= s < s2 < stages.len() && 0 <= k < stages[s]@.len() && 0 <= k2 < stages[s2]@.len()
            ==> spec_rank(deps_of(systems), (#[trigger] stages[s]@[k]) as int).unwrap() <= spec_rank(
            deps_of(systems),
            (#[trigger] stages[s2]@[k2]) as int,
        ).unwrap()
}

/// The stages are a sound schedule for the systems: every system placed
/// exactly once, stages grouped by rank and ordered by ascending rank, and no
/// conflicting pair sharing a stage.
pub open spec fn valid_schedule(systems: Seq<SystemData>, stages: Seq<Vec<usize>>) -> bool {
    &&& stages_in_range(stages, systems.len() as int)
    &&& forall|i: usize| i < systems.len() ==> #[trigger] stages_contain(stages, i)
    &&& stages_distinct(stages)
    &&& stages_conflict_free(systems, stages)
    &&& stages_rank_grouped(systems, stages)
    &&& stages_rank_sorted(systems, stages)
}

/// Decides whether a system's signature conflicts with any of the listed
/// systems' signatures.
fn conflicts_any(systems: &Vec<SystemData>, current: &Vec<usize>, idx: usize) -> (r: bool)
    requires
        idx < systems@.len(),
        forall|k: int| 0 <= k < current@.len() ==> (#[trigger] current@[k]) < systems@.len(),
    ensures
        r == exists|k: int|
            0 <= k < current@.len() && spec_conflicts(
                systems@[(#[trigger] current@[k]) as int].signature@,
                systems@[idx as int].signature@,
            ),
{
    let mut k: usize = 0;
    while k < current.len()
        invariant
            k <= current@.len(),
            idx < systems@.len(),
            forall|p: int| 0 <= p < current@.len() ==> (#[trigger] current@[p]) < systems@.len(),
            forall|p: int|
                0 <= p < k ==> !spec_conflicts(
                    systems@[(#[trigger] current@[p]) as int].signature@,
                    systems@[idx as int].signature@,
                ),
        decreases current@.len() - k,
    {
        let m = current[k];
        if conflicts(&systems[m].signature, &systems[idx].signature) {
            return true;
        }
        k = k + 1;
    }
    false
}

/// Splits one equal-rank group of systems into sub-stages: scanning the group
/// in order, round after round, each system joins the round's sub-stage
/// unless it conflicts with one already in it, in which case it waits for a
/// later round. Every system of the group lands in exactly one sub-stage and
/// no sub-stage holds a conflicting pair.
fn split_conflicts(systems: &Vec<SystemData>, group: &Vec<usize>) -> (subs: Vec<Vec<usize>>)
    requires
        forall|k: int| 0 <= k < group@.len() ==> (#[trigger] group@[k]) < systems@.len(),
        forall|k: int, k2: int| 0 <= k < k2 < group@.len() ==> group@[k] < group@[k2],
    ensures
        forall|s: int, k: int|
            0 <= s < subs@.len() && 0 <= k < subs@[s]@.len() ==> group@.contains(
                #[trigger] subs@[s]@[k],
            ),
        forall|k: int| 0 <= k < group@.len() ==> stages_contain(subs@, #[trigger] group@[k]),
        stages_distinct(subs@),
        stages_conflict_free(systems@, subs@),
        forall|s: int| 0 <= s < subs@.len() ==> subs@[s]@.len() > 0,
{
    let mut subs: Vec<Vec<usize>> = Vec::new();
    let mut remaining: Vec<usize> = Vec::new();
    let mut c: usize = 0;
    while c < group.len()
        invariant
            c <= group@.len(),
            remaining@ == group@.take(c as int),
        decreases group@.len() - c,
    {
        remaining.push(group[c]);
        c = c + 1;
    }
    proof {
        assert(remaining@ =~= group@);
    }
    while remaining.len() > 0
        invariant
            forall|k: int| 0 <= k < group@.len() ==> (#[trigger] group@[k]) < systems@.len(),
            forall|k: int, k2: int| 0 <= k < k2 < group@.len() ==> group@[k] < group@[k2],
            forall|k: int| 0 <= k < remaining@.len() ==> group@.contains(#[trigger] remaining@[k]),
            forall|k: int, k2: int|
                0 <= k < k2 < remaining@.len() ==> remaining@[k] < remaining@[k2],
            forall|s: int, k: int|
                0 <= s < subs@.len() && 0 <= k < subs@[s]@.len() ==> group@.contains(
                    #[trigger] subs@[s]@[k],
                ),
            forall|k: int, s: int, k2: int|
                0 <= k < remaining@.len() && 0 <= s < subs@.len() && 0 <= k2 < subs@[s]@.len()
                    ==> #[trigger] remaining@[k] != #[trigger] subs@[s]@[k2],
            stages_distinct(subs@),
            stages_conflict_free(systems@, subs@),
            forall|k: int|
                0 <= k < group@.len() ==> stages_contain(subs@, #[trigger] group@[k])
                    || remaining@.contains(group@[k]),
            forall|s: int| 0 <= s < subs@.len() ==> subs@[s]@.len() > 0,
        decreases remaining@.len(),
    {
        let mut current: Vec<usize> = Vec::new();
        let mut next_rem: Vec<usize> = Vec::new();
        let mut t: usize = 0;
        while t < remaining.len()
            invariant
                t <= remaining@.len(),
                forall|k: int| 0 <= k < remaining@.len() ==> (#[trigger] remaining@[k])
                    < systems@.len(),
                forall|k: int, k2: int|
                    0 <= k < k2 < remaining@.len() ==> remaining@[k] < remaining@[k2],
                forall|k: int, k2: int| 0 <= k < k2 < current@.len() ==> current@[k] < current@[k2],
                forall|k: int, k2: int|
                    0 <= k < k2 < next_rem@.len() ==> next_rem@[k] < next_rem@[k2],
                forall|kc: int, kn: int|
                    0 <= kc < current@.len() && 0 <= kn < next_rem@.len()
                        ==> #[trigger] current@[kc] != #[trigger] next_rem@[kn],
                forall|k: int| 0 <= k < current@.len() ==> remaining@.take(t as int).contains(
                    #[trigger] current@[k],
                ),
                forall|k: int| 0 <= k < next_rem@.len() ==> remaining@.take(t as int).contains(
                    #[trigger] next_rem@[k],
                ),
                current@.len() + next_rem@.len() == t,
                t > 0 ==> current@.len() > 0,
                forall|k: int, k2: int|
                    0 <= k < current@.len() && 0 <= k2 < current@.len() && k != k2
                        ==> !spec_conflicts(
                        systems@[(#[trigger] current@[k]) as int].signature@,
                        systems@[(#[trigger] current@[k2]) as int].signature@,
                    ),
                forall|q: int|
                    0 <= q < t ==> current@.contains(#[trigger] remaining@[q])
                        || next_rem@.contains(remaining@[q]),
            decreases remaining@.len() - t,
        {
            let idx = remaining[t];
            proof {
                assert forall|k: int|
                    0 <= k < current@.len() implies #[trigger] current@[k] < idx by {
                    let q = choose|q: int|
                        0 <= q < t && remaining@.take(t as int)[q] == current@[k];
                    assert(remaining@[q] == current@[k]);
                }
                assert forall|k: int|
                    0 <= k < next_rem@.len() implies #[trigger] next_rem@[k] < idx by {
                    let q = choose|q: int|
                        0 <= q < t && remaining@.take(t as int)[q] == next_rem@[k];
                    assert(remaining@[q] == next_rem@[k]);
                }
            }
            let ghost pc = current@;
            let ghost pn = next_rem@;
            if !conflicts_any(systems, &current, idx) {
                current.push(idx);
                proof {
                    assert(remaining@.take(t + 1)[t as int] == remaining@[t as int]);
                    assert(current@[current@.len() - 1] == remaining@[t as int]);
                    assert forall|q: int|
                        0 <= q < t + 1 implies current@.contains(#[trigger] remaining@[q])
                        || next_rem@.contains(remaining@[q]) by {
                        if q < t {
                            if pc.contains(remaining@[q]) {
                                let w = choose|w: int|
                                    0 <= w < pc.len() && pc[w] == remaining@[q];
                                assert(current@[w] == remaining@[q]);
                            }
                        } else {
                            assert(current@[current@.len() - 1] == remaining@[q]);
                        }
                    }
                    assert forall|k: int, k2: int|
                        0 <= k < current@.len() && 0 <= k2 < current@.len() && k != k2
                            implies !spec_conflicts(
                            systems@[(#[trigger] current@[k]) as int].signature@,
                            systems@[(#[trigger] current@[k2]) as int].signature@,
                        ) by {
                        if k2 == current@.len() - 1 && k < k2 {
                            assert(!spec_conflicts(
                                systems@[current@[k] as int].signature@,
                                systems@[idx as int].signature@,
                            ));
                            lemma_conflicts_symmetric(
                                systems@[current@[k] as int].signature@,
                                systems@[idx as int].signature@,
                            );
                        } else if k == current@.len() - 1 && k2 < k {
                            assert(!spec_conflicts(
                                systems@[current@[k2] as int].signature@,
                                systems@[idx as int].signature@,
                            ));
                            lemma_conflicts_symmetric(
                                systems@[current@[k2] as int].signature@,
                                systems@[idx as int].signature@,
                            );
                        }
                    }
                    assert(remaining@.take(t + 1).contains(remaining@[t as int]));
                    assert forall|k: int|
                        0 <= k < current@.len() implies remaining@.take(t + 1).contains(
                        #[trigger] current@[k],
                    ) by {
                        if k < current@.len() - 1 {
                            let q = choose|q: int|
                                0 <= q < t && remaining@.take(t as int)[q] == current@[k];
                            assert(remaining@.take(t + 1)[q] == current@[k]);
                        }
                    }
                    assert forall|k: int|
                        0 <= k < next_rem@.len() implies remaining@.take(t + 1).contains(
                        #[trigger] next_rem@[k],
                    ) by {
                        let q = choose|q: int|
                            0 <= q < t && remaining@.take(t as int)[q] == next_rem@[k];
                        assert(remaining@.take(t + 1)[q] == next_rem@[k]);
                    }
                }
            } else {
                next_rem.push(idx);
                proof {
                    assert(remaining@.take(t + 1)[t as int] == remaining@[t as int]);
                    assert(next_rem@[next_rem@.len() - 1] == remaining@[t as int]);
                    assert forall|q: int|
                        0 <= q < t + 1 implies current@.contains(#[trigger] remaining@[q])
                        || next_rem@.contains(remaining@[q]) by {
                        if q < t {
                            if pn.contains(remaining@[q]) {
                                let w = choose|w: int|
                                    0 <= w < pn.len() && pn[w] == remaining@[q];
                                assert(next_rem@[w] == remaining@[q]);
                            }
                        } else {
                            assert(next_rem@[next_rem@.len() - 1] == remaining@[q]);
                        }
                    }
                    assert(remaining@.take(t + 1).contains(remaining@[t as int]));
                    assert forall|k: int|
                        0 <= k < next_rem@.len() implies remaining@.take(t + 1).contains(
                        #[trigger] next_rem@[k],
                    ) by {
                        if k < next_rem@.len() - 1 {
                            let q = choose|q: int|
                                0 <= q < t && remaining@.take(t as int)[q] == next_rem@[k];
                            assert(remaining@.take(t + 1)[q] == next_rem@[k]);
                        }
                    }
                    assert forall|k: int|
                        0 <= k < current@.len() implies remaining@.take(t + 1).contains(
                        #[trigger] current@[k],
                    ) by {
                        let q = choose|q: int|
                            0 <= q < t && remaining@.take(t as int)[q] == current@[k];
                        assert(remaining@.take(t + 1)[q] == current@[k]);
                    }
                }
            }
            t = t + 1;
        }
        proof {
            assert(remaining@.take(remaining@.len() as int) =~= remaining@);
        }
        let ghost old_subs = subs@;
        let ghost old_remaining = remaining@;
        let ghost cur = current@;
        let ghost nxt = next_rem@;
        subs.push(current);
        remaining = next_rem;
        proof {
            assert(subs@.len() == old_subs.len() + 1);
            assert(subs@[subs@.len() - 1]@ == cur);
            assert(forall|s2: int| 0 <= s2 < old_subs.len() ==> subs@[s2] == old_subs[s2]);
            assert forall|k: int|
                0 <= k < group@.len() implies stages_contain(subs@, #[trigger] group@[k])
                    || remaining@.contains(group@[k]) by {
                if stages_contain(old_subs, group@[k]) {
                    let (s, k2) = choose|s: int, k2: int|
                        0 <= s < old_subs.len() && 0 <= k2 < old_subs[s]@.len()
                            && #[trigger] old_subs[s]@[k2] == group@[k];
                    assert(subs@[s]@[k2] == group@[k]);
                } else if old_remaining.contains(group@[k]) {
                    let q = choose|q: int|
                        0 <= q < old_remaining.len() && old_remaining[q] == group@[k];
                    if cur.contains(old_remaining[q]) {
                        let k2 = choose|k2: int|
                            0 <= k2 < cur.len() && cur[k2] == old_remaining[q];
                        assert(subs@[subs@.len() - 1]@[k2] == group@[k]);
                    }
                }
            }
            assert forall|s: int, k: int|
                0 <= s < subs@.len() && 0 <= k < subs@[s]@.len() implies group@.contains(
                #[trigger] subs@[s]@[k],
            ) by {
                if s == subs@.len() - 1 {
                    assert(old_remaining.contains(cur[k]));
                }
            }
            assert forall|k: int, s: int, k2: int|
                0 <= k < remaining@.len() && 0 <= s < subs@.len() && 0 <= k2 < subs@[s]@.len()
                    implies #[trigger] remaining@[k] != #[trigger] subs@[s]@[k2] by {
                if s < subs@.len() - 1 {
                    assert(old_remaining.contains(nxt[k]));
                    let q = choose|q: int|
                        0 <= q < old_remaining.len() && old_remaining[q] == nxt[k];
                    assert(old_remaining[q] != old_subs[s]@[k2]);
                }
            }
            assert forall|s: int, k: int, s2: int, k2: int|
                0 <= s < subs@.len() && 0 <= k < subs@[s]@.len() && 0 <= s2 < subs@.len() && 0 <= k2
                    < subs@[s2]@.len() && (s != s2 || k != k2) implies #[trigger] subs@[s]@[k]
                != #[trigger] subs@[s2]@[k2] by {
                if s == subs@.len() - 1 && s2 < s {
                    assert(old_remaining.contains(cur[k]));
                    let q = choose|q: int|
                        0 <= q < old_remaining.len() && old_remaining[q] == cur[k];
                    assert(old_remaining[q] != old_subs[s2]@[k2]);
                } else if s2 == subs@.len() - 1 && s < s2 {
                    assert(old_remaining.contains(cur[k2]));
                    let q = choose|q: int|
                        0 <= q < old_remaining.len() && old_remaining[q] == cur[k2];
                    assert(old_remaining[q] != old_subs[s]@[k]);
                }
            }
        }
    }
    subs
}

/// Conflict between signatures does not depend on their order.
proof fn lemma_conflicts_symmetric(a: Seq<(usize, Permisions)>, b: Seq<(usize, Permisions)>)
    ensures
        spec_conflicts(a, b) == spec_conflicts(b, a),
{
}

/// Appending keeps every present element present, and makes the appended one
/// present.
proof fn lemma_contains_push(s: Seq<usize>, x: usize, y: usize)
    requires
        s.contains(y) || y == x,
    ensures
        s.push(x).contains(y),
{
    if s.contains(y) {
        let w = choose|w: int| 0 <= w < s.len() && s[w] == y;
        assert(s.push(x)[w] == y);
    } else {
        assert(s.push(x)[s.len() as int] == y);
    }
}

/// Groups system indices by rank value: entry `g` lists, in ascending index
/// order, exactly the systems whose computed rank is `g`.
fn group_by_rank(ranks: &Vec<usize>, max_rank: usize) -> (groups: Vec<Vec<usize>>)
    requires
        forall|i: int| 0 <= i < ranks@.len() ==> (#[trigger] ranks@[i]) <= max_rank,
        max_rank < usize::MAX,
    ensures
        groups@.len() == max_rank + 1,
        forall|g: int, k: int|
            0 <= g < groups@.len() && 0 <= k < groups@[g]@.len() ==> (#[trigger] groups@[g]@[k])
                < ranks@.len() && ranks@[groups@[g]@[k] as int] == g,
        forall|g: int, k: int, k2: int|
            0 <= g < groups@.len() && 0 <= k < k2 < groups@[g]@.len() ==> groups@[g]@[k]
                < groups@[g]@[k2],
        forall|i: int|
            0 <= i < ranks@.len() ==> (#[trigger] groups@[ranks@[i] as int])@.contains(i as usize),
{
    let n = ranks.len();
    let mut groups: Vec<Vec<usize>> = Vec::new();
    let mut g: usize = 0;
    while g <= max_rank
        invariant
            g <= max_rank + 1,
            max_rank < usize::MAX,
            n == ranks@.len(),
            forall|i: int| 0 <= i < ranks@.len() ==> (#[trigger] ranks@[i]) <= max_rank,
            groups@.len() == g,
            forall|p: int, k: int|
                0 <= p < g && 0 <= k < groups@[p]@.len() ==> (#[trigger] groups@[p]@[k])
                    < ranks@.len() && ranks@[groups@[p]@[k] as int] == p,
            forall|p: int, k: int, k2: int|
                0 <= p < g && 0 <= k < k2 < groups@[p]@.len() ==> groups@[p]@[k] < groups@[p]@[k2],
            forall|i: int|
                0 <= i < ranks@.len() && ranks@[i] < g ==> (#[trigger] groups@[ranks@[i] as int])@.contains(
                    i as usize,
                ),
        decreases max_rank + 1 - g,
    {
        let mut cur: Vec<usize> = Vec::new();
        let mut i: usize = 0;
        while i < n
            invariant
                i <= n,
                n == ranks@.len(),
                forall|k: int|
                    0 <= k < cur@.len() ==> (#[trigger] cur@[k]) < i && ranks@[cur@[k] as int]
                        == g,
                forall|k: int, k2: int| 0 <= k < k2 < cur@.len() ==> cur@[k] < cur@[k2],
                forall|p: int| 0 <= p < i && ranks@[p] == g ==> cur@.contains(p as usize),
            decreases n - i,
        {
            if ranks[i] == g {
                let ghost pc = cur@;
                cur.push(i);
                proof {
                    assert forall|p: int|
                        0 <= p < i + 1 && ranks@[p] == g implies cur@.contains(p as usize) by {
                        if p < i {
                            lemma_contains_push(pc, i, p as usize);
                        } else {
                            lemma_contains_push(pc, i, i);
                        }
                    }
                }
            }
            i = i + 1;
        }
        let ghost pg = groups@;
        groups.push(cur);
        proof {
            assert forall|i2: int|
                0 <= i2 < ranks@.len() && ranks@[i2] < g + 1 implies (#[trigger] groups@[ranks@[i2] as int])@.contains(
                i2 as usize,
            ) by {
                if ranks@[i2] < g {
                    assert(groups@[ranks@[i2] as int] == pg[ranks@[i2] as int]);
                } else {
                    assert(groups@[ranks@[i2] as int] == cur);
                }
            }
        }
        g = g + 1;
    }
    groups
}

/// Partitions the systems into dispatch stages: systems are ranked by their
/// declared dependencies, grouped by ascending rank, and each rank group is
/// split so that no two systems sharing a stage conflict. Every system lands
/// in exactly one stage, and a stage never precedes one of its systems'
/// dependencies. Returns nothing when the dependency declarations contain a
/// cycle or a dangling index, which is detected and rejected rather than
/// mis-ranked.
pub fn build_stages(systems: &Vec<SystemData>) -> (r: Option<Vec<Vec<usize>>>)
    requires
        systems@.len() < usize::MAX,
    ensures
        match r {
            Some(stages) => acyclic(deps_of(systems@)) && valid_schedule(systems@, stages@),
            None => !acyclic(deps_of(systems@)),
        },
{
    let ghost rel_spec = deps_of(systems@);
    let n = systems.len();
    let mut rel: Vec<Vec<usize>> = Vec::new();
    let mut i: usize = 0;
    while i < n
        invariant
            i <= n,
            n == systems@.len(),
            rel@.len() == i,
            forall|p: int| 0 <= p < i ==> (#[trigger] rel@[p])@ == systems@[p].dependencies@,
        decreases n - i,
    {
        let deps = &systems[i].dependencies;
        let mut d: Vec<usize> = Vec::new();
        let mut q: usize = 0;
        while q < deps.len()
            invariant
                q <= deps@.len(),
                d@ == deps@.take(q as int),
            decreases deps@.len() - q,
        {
            d.push(deps[q]);
            q = q + 1;
        }
        proof {
            assert(d@ =~= systems@[i as int].dependencies@);
        }
        rel.push(d);
        i = i + 1;
    }
    proof {
        assert(rel.deep_view() =~~= rel_spec);
    }
    let ranks = match get_longest_dependency_chain(&rel) {
        Some(ranks) => ranks,
        None => {
            return None;
        },
    };
    let mut max_rank: usize = 0;
    let mut i: usize = 0;
    while i < n
        invariant
            i <= n,
            n == ranks@.len(),
            rel_spec == deps_of(systems@),
            n == systems@.len(),
            forall|p: int| 0 <= p < ranks@.len() ==> spec_rank(rel_spec, p) == Some(
                #[trigger] ranks@[p] as nat,
            ),
            forall|p: int| 0 <= p < i ==> (#[trigger] ranks@[p]) <= max_rank,
            max_rank == 0 || exists|p: int| 0 <= p < i && ranks@[p] == max_rank,
        decreases n - i,
    {
        if ranks[i] > max_rank {
            max_rank = ranks[i];
        }
        i = i + 1;
    }
    proof {
        // a rank is bounded by the number of systems, so the largest one
        // leaves room for the group count
        if max_rank > 0 {
            let p0 = choose|p: int| 0 <= p < n && ranks@[p] == max_rank;
            lemma_rank_fuel_bound(rel_spec, p0, rank_budget(rel_spec));
        }
        assert(max_rank < usize::MAX);
    }
    let groups = group_by_rank(&ranks, max_rank);
    let mut stages: Vec<Vec<usize>> = Vec::new();
    let ghost mut stage_ranks: Seq<usize> = Seq::empty();
    let mut g: usize = 0;
    while g < groups.len()
        invariant
            g <= groups@.len(),
            groups@.len() == max_rank + 1,
            n == systems@.len(),
            n == ranks@.len(),
            rel_spec == deps_of(systems@),
            forall|p: int|
                0 <= p < ranks@.len() ==> spec_rank(rel_spec, p) == Some(#[trigger] ranks@[p] as nat),
            forall|p: int, k: int|
                0 <= p < groups@.len() && 0 <= k < groups@[p]@.len() ==> (#[trigger] groups@[p]@[k])
                    < n && ranks@[groups@[p]@[k] as int] == p,
            forall|p: int, k: int, k2: int|
                0 <= p < groups@.len() && 0 <= k < k2 < groups@[p]@.len() ==> groups@[p]@[k]
                    < groups@[p]@[k2],
            forall|p: int|
                0 <= p < ranks@.len() ==> (#[trigger] groups@[ranks@[p] as int])@.contains(
                    p as usize,
                ),
            stage_ranks.len() == stages@.len(),
            forall|s: int, k: int|
                0 <= s < stages@.len() && 0 <= k < stages@[s]@.len() ==> (#[trigger] stages@[s]@[k])
                    < n && ranks@[stages@[s]@[k] as int] == stage_ranks[s],
            forall|s: int| 0 <= s < stage_ranks.len() ==> (#[trigger] stage_ranks[s]) < g,
            forall|s: int, s2: int|
                0 <= s <= s2 < stage_ranks.len() ==> stage_ranks[s] <= stage_ranks[s2],
            stages_distinct(stages@),
            stages_conflict_free(systems@, stages@),
            forall|p: int| 0 <= p < ranks@.len() ==> (#[trigger] ranks@[p]) <= max_rank,
            forall|p: usize|
                p < n && ranks@[p as int] < g ==> #[trigger] stages_contain(stages@, p),
        decreases groups@.len() - g,
    {
        let mut subs = split_conflicts(systems, &groups[g]);
        let ghost osubs = subs@;
        let ghost pre_stages = stages@;
        let ghost pre_ranks = stage_ranks;
        let total = subs.len();
        let mut u: usize = 0;
        while subs.len() > 0
            invariant
                osubs.len() == total,
                u <= osubs.len(),
                subs@ == osubs.skip(u as int),
                stages@ == pre_stages + osubs.take(u as int),
            decreases subs@.len(),
        {
            proof {
                assert(osubs.skip(u as int).len() == osubs.len() - u);
                assert(u < osubs.len());
            }
            let stage = subs.remove(0);
            proof {
                assert(stage == osubs[u as int]);
                assert(subs@ =~= osubs.skip(u + 1));
                assert(stages@.push(stage) =~= pre_stages + osubs.take(u + 1));
            }
            stages.push(stage);
            u = u + 1;
        }
        proof {
            assert(osubs.take(osubs.len() as int) =~= osubs);
            assert(stages@ == pre_stages + osubs);
            stage_ranks = pre_ranks + Seq::new(osubs.len(), |s: int| g);
            let grp = groups@[g as int]@;
            // every element the new stages mention belongs to the rank-g group
            assert forall|s: int, k: int|
                0 <= s < stages@.len() && 0 <= k < stages@[s]@.len() implies (
            #[trigger] stages@[s]@[k]) < n && ranks@[stages@[s]@[k] as int] == stage_ranks[s] by {
                if s >= pre_stages.len() {
                    assert(stages@[s] == osubs[s - pre_stages.len()]);
                    assert(grp.contains(stages@[s]@[k]));
                    let w = choose|w: int| 0 <= w < grp.len() && grp[w] == stages@[s]@[k];
                    assert(ranks@[grp[w] as int] == g);
                } else {
                    assert(stages@[s] == pre_stages[s]);
                }
            }
            assert forall|s: int, k: int, s2: int, k2: int|
                0 <= s < stages@.len() && 0 <= k < stages@[s]@.len() && 0 <= s2 < stages@.len() && 0
                    <= k2 < stages@[s2]@.len() && (s != s2 || k != k2) implies #[trigger] stages@[s]@[k]
                != #[trigger] stages@[s2]@[k2] by {
                let l = pre_stages.len() as int;
                if s < l && s2 < l {
                    assert(stages@[s] == pre_stages[s] && stages@[s2] == pre_stages[s2]);
                } else if s >= l && s2 >= l {
                    assert(stages@[s] == osubs[s - l] && stages@[s2] == osubs[s2 - l]);
                } else if s < l && s2 >= l {
                    assert(stages@[s] == pre_stages[s] && stages@[s2] == osubs[s2 - l]);
                    assert(ranks@[stages@[s]@[k] as int] == pre_ranks[s] < g);
                    assert(grp.contains(stages@[s2]@[k2]));
                    let w = choose|w: int| 0 <= w < grp.len() && grp[w] == stages@[s2]@[k2];
                    assert(ranks@[stages@[s2]@[k2] as int] == g);
                } else {
                    assert(stages@[s2] == pre_stages[s2] && stages@[s] == osubs[s - l]);
                    assert(ranks@[stages@[s2]@[k2] as int] == pre_ranks[s2] < g);
                    assert(grp.contains(stages@[s]@[k]));
                    let w = choose|w: int| 0 <= w < grp.len() && grp[w] == stages@[s]@[k];
                    assert(ranks@[stages@[s]@[k] as int] == g);
                }
            }
            assert forall|s: int, k: int, k2: int|
                0 <= s < stages@.len() && 0 <= k < stages@[s]@.len() && 0 <= k2
                    < stages@[s]@.len() && k != k2 implies !spec_conflicts(
                systems@[(#[trigger] stages@[s]@[k]) as int].signature@,
                systems@[(#[trigger] stages@[s]@[k2]) as int].signature@,
            ) by {
                let l = pre_stages.len() as int;
                if s < l {
                    assert(stages@[s] == pre_stages[s]);
                } else {
                    assert(stages@[s] == osubs[s - l]);
                }
            }
            assert forall|p: usize|
                p < n && ranks@[p as int] < g + 1 implies #[trigger] stages_contain(
                stages@,
                p,
            ) by {
                if ranks@[p as int] < g {
                    assert(stages_contain(pre_stages, p));
                    let (s, k) = choose|s: int, k: int|
                        0 <= s < pre_stages.len() && 0 <= k < pre_stages[s]@.len()
                            && #[trigger] pre_stages[s]@[k] == p;
                    assert(stages@[s]@[k] == p);
                } else {
                    assert(grp.contains(p));
                    let w = choose|w: int| 0 <= w < grp.len() && grp[w] == p;
                    assert(stages_contain(osubs, grp[w]));
                    let (s, k) = choose|s: int, k: int|
                        0 <= s < osubs.len() && 0 <= k < osubs[s]@.len() && #[trigger] osubs[s]@[k]
                            == p;
                    assert(stages@[pre_stages.len() + s]@[k] == p);
                }
            }
        }
        g = g + 1;
    }
    proof {
        assert forall|p: usize| p < systems@.len() implies #[trigger] stages_contain(
            stages@,
            p,
        ) by {
            assert(ranks@[p as int] <= max_rank);
            assert(ranks@[p as int] < groups@.len());
        }
        assert forall|s: int, k: int, k2: int|
            0 <= s < stages@.len() && 0 <= k < stages@[s]@.len() && 0 <= k2 < stages@[s]@.len()
                implies spec_rank(deps_of(systems@), (#[trigger] stages@[s]@[k]) as int)
            == spec_rank(deps_of(systems@), (#[trigger] stages@[s]@[k2]) as int) by {
            assert(ranks@[stages@[s]@[k] as int] == stage_ranks[s]);
            assert(ranks@[stages@[s]@[k2] as int] == stage_ranks[s]);
        }
        assert forall|s: int, k: int, s2: int, k2: int|
            0 <= s < s2 < stages@.len() && 0 <= k < stages@[s]@.len() && 0 <= k2
                < stages@[s2]@.len() implies spec_rank(
            deps_of(systems@),
            (#[trigger] stages@[s]@[k]) as int,
        ).unwrap() <= spec_rank(deps_of(systems@), (#[trigger] stages@[s2]@[k2]) as int).unwrap()
            by {
            assert(ranks@[stages@[s]@[k] as int] == stage_ranks[s]);
            assert(ranks@[stages@[s2]@[k2] as int] == stage_ranks[s2]);
        }
    }
    Some(stages)
}

/// Law: in a valid schedule of acyclically declared systems, every declared
/// dependency of a scheduled system is placed in a strictly earlier stage, so
/// running stage after stage — each stage a hard barrier — completes every
/// dependency before the system that declared it begins.
pub proof fn lemma_schedule_respects_dependencies(
    systems: Seq<SystemData>,
    stages: Seq<Vec<usize>>,
    s: int,
    k: int,
    d: int,
)
    requires
        acyclic(deps_of(systems)),
        valid_schedule(systems, stages),
        0 <= s < stages.len(),
        0 <= k < stages[s]@.len(),
        0 <= d < systems[stages[s]@[k] as int].dependencies@.len(),
    ensures
        exists|s2: int, k2: int|
            0 <= s2 < s && 0 <= k2 < stages[s2]@.len() && #[trigger] stages[s2]@[k2]
                == systems[stages[s]@[k] as int].dependencies@[d],
{
    let rel = deps_of(systems);
    let i = stages[s]@[k] as int;
    let dep = systems[i].dependencies@[d];
    assert(rel[i] == systems[i].dependencies@);
    assert(spec_rank(rel, i).is_some());
    lemma_rank_recurrence(rel, i);
    let budget = rank_budget(rel);
    lemma_max_dep_rank_is_max(rel, rel[i], budget);
    assert(rank_fuel(rel, dep as int, budget).is_some());
    assert(spec_rank(rel, dep as int).unwrap() <= max_dep_rank(rel, rel[i], budget).unwrap());
    assert(spec_rank(rel, i).unwrap() > spec_rank(rel, dep as int).unwrap());
    assert(dep < systems.len());
    assert(stages_contain(stages, dep));
    let (s2, k2) = choose|s2: int, k2: int|
        0 <= s2 < stages.len() && 0 <= k2 < stages[s2]@.len() && #[trigger] stages[s2]@[k2] == dep;
    if s2 == s {
        assert(spec_rank(rel, stages[s]@[k2] as int) == spec_rank(rel, stages[s]@[k] as int));
        assert(false);
    } else if s2 > s {
        assert(spec_rank(rel, stages[s]@[k] as int).unwrap() <= spec_rank(
            rel,
            stages[s2]@[k2] as int,
        ).unwrap());
        assert(false);
    }
    assert(0 <= s2 < s && 0 <= k2 < stages[s2]@.len() && stages[s2]@[k2] == dep);
}

/// A unit of work over a world of type `W`, with a declared access signature
/// and declared dependencies. The library schedules systems by these
/// declarations; what `run` does to the world is the implementor's business.
pub trait System<W>: Sized {
    /// The `(storage token, access mode)` pairs this system requires.
    fn signature(&self) -> Vec<(usize, Permisions)>;

    /// The indices of the systems that must complete before this one runs.
    fn dependencies(&self) -> Vec<usize>;

    /// Performs this system's work on the world.
    fn run(&mut self, world: &mut W);
}

/// Runs the systems one after the other, in index order, on the calling
/// thread of control.
pub fn dispatch<W, S: System<W>>(systems: &mut Vec<S>, world: &mut W)
    ensures
        final(systems)@.len() == old(systems)@.len(),
{
    let n = systems.len();
    let mut i: usize = 0;
    while i < n
        invariant
            i <= n,
            systems@.len() == n,
        decreases n - i,
    {
        let sys = &mut systems[i];
        sys.run(world);
        i = i + 1;
    }
}

/// Runs the systems stage by stage: within a stage in listed order, and a
/// stage completes before the next one begins, so each stage is a hard
/// barrier.
pub fn dispatch_stages<W, S: System<W>>(
    systems: &mut Vec<S>,
    stages: &Vec<Vec<usize>>,
    world: &mut W,
)
    requires
        forall|s: int, k: int|
            0 <= s < stages@.len() && 0 <= k < stages@[s]@.len() ==> (#[trigger] stages@[s]@[k])
                < old(systems)@.len(),
    ensures
        final(systems)@.len() == old(systems)@.len(),
{
    let ghost n = systems@.len();
    let mut s: usize = 0;
    while s < stages.len()
        invariant
            s <= stages@.len(),
            systems@.len() == n,
            n == old(systems)@.len(),
            forall|s2: int, k: int|
                0 <= s2 < stages@.len() && 0 <= k < stages@[s2]@.len() ==> (#[trigger] stages@[s2]@[k]) < n,
        decreases stages@.len() - s,
    {
        let stage = &stages[s];
        let mut k: usize = 0;
        while k < stage.len()
            invariant
                k <= stage@.len(),
                systems@.len() == n,
                s < stages@.len(),
                stage@ == stages@[s as int]@,
                forall|s2: int, k2: int|
                    0 <= s2 < stages@.len() && 0 <= k2 < stages@[s2]@.len() ==> (#[trigger] stages@[s2]@[k2]) < n,
            decreases stage@.len() - k,
        {
            let idx = stage[k];
            let sys = &mut systems[idx];
            sys.run(world);
            k = k + 1;
        }
        s = s + 1;
    }
}

/// A possibly nested dispatch plan over system indices: one system, a
/// sequential group whose members run in order, or a parallel group whose
/// members may also run concurrently. Groups nest to arbitrary depth, mixing
/// both kinds.
pub enum DispatchPlan {
    /// Run the system with this index.
    Run(usize),
    /// Run the members one after the other, in order.
    Sequence(Vec<DispatchPlan>),
    /// Run the members concurrently, or in any serialization.
    Parallel(Vec<DispatchPlan>),
}

/// Every system index the plan mentions names one of `n` systems.
pub open spec fn plan_valid(plan: DispatchPlan, n: int) -> bool
    decreases plan,
{
    match plan {
        DispatchPlan::Run(i) => i < n,
        DispatchPlan::Sequence(children) => forall|k: int|
            0 <= k < children@.len() ==> plan_valid(#[trigger] children@[k], n),
        DispatchPlan::Parallel(children) => forall|k: int|
            0 <= k < children@.len() ==> plan_valid(#[trigger] children@[k], n),
    }
}

/// Runs a dispatch plan on the calling thread of control: sequential groups
/// in order, parallel groups in their listed order, which is one of the
/// serializations the plan permits.
#[verifier::loop_isolation(false)]
pub fn run_plan<W, S: System<W>>(plan: &DispatchPlan, systems: &mut Vec<S>, world: &mut W)
    requires
        plan_valid(*plan, old(systems)@.len() as int),
    ensures
        final(systems)@.len() == old(systems)@.len(),
    decreases *plan,
{
    let children = match plan {
        DispatchPlan::Run(i) => {
            let sys = &mut systems[*i];
            sys.run(world);
            return;
        },
        DispatchPlan::Sequence(children) => children,
        DispatchPlan::Parallel(children) => children,
    };
    let n = children.len();
    let mut k: usize = 0;
    while k < n
        invariant
            k <= n,
            systems@.len() == old(systems)@.len(),
        decreases n - k,
    {
        run_plan(&children[k], systems, world);
        k = k + 1;
    }
}

/// The storages a signature asks to read.
pub open spec fn reads_of(sig: Seq<(usize, Permisions)>) -> Set<usize> {
    Set::new(
        |t: usize|
            exists|i: int| 0 <= i < sig.len() && #[trigger] sig[i] == (t, Permisions::Read),
    )
}

/// The storages a signature asks to write.
pub open spec fn writes_of(sig: Seq<(usize, Permisions)>) -> Set<usize> {
    Set::new(
        |t: usize|
            exists|i: int| 0 <= i < sig.len() && #[trigger] sig[i] == (t, Permisions::Write),
    )
}

/// Two maps agree on every storage of the given set that they hold.
pub open spec fn agrees_on<T>(m1: Map<usize, T>, m2: Map<usize, T>, s: Set<usize>) -> bool {
    forall|t: usize| #[trigger] s.contains(t) && m1.dom().contains(t) ==> m1[t] == m2[t]
}

/// A system's effect on the storages, taken abstractly as a function from the
/// table of storage contents to the table after the system ran, respects its
/// signature: it never creates or drops a storage, it changes only storages
/// its signature writes, and what it writes depends only on storages its
/// signature reads or writes.
pub open spec fn sys_effect_ok<T>(
    f: spec_fn(Map<usize, T>) -> Map<usize, T>,
    sig: Seq<(usize, Permisions)>,
) -> bool {
    &&& forall|m: Map<usize, T>| (#[trigger] f(m)).dom() == m.dom()
    &&& forall|m: Map<usize, T>, t: usize|
        m.dom().contains(t) && !writes_of(sig).contains(t) ==> #[trigger] f(m)[t] == m[t]
    &&& forall|m1: Map<usize, T>, m2: Map<usize, T>, t: usize|
        m1.dom() == m2.dom() && agrees_on(m1, m2, reads_of(sig).union(writes_of(sig)))
            && m1.dom().contains(t) && writes_of(sig).contains(t) ==> #[trigger] f(m1)[t]
            == #[trigger] f(m2)[t]
}

/// Law: two systems whose signatures do not conflict — disjoint, or sharing
/// storages only for reading — leave the storages in the same final state in
/// either execution order. Within one stage of a valid schedule no two
/// systems conflict, so a stage's systems may run concurrently: any
/// serialization of them ends in the state a sequential run reaches.
pub proof fn lemma_nonconflicting_commute<T>(
    f: spec_fn(Map<usize, T>) -> Map<usize, T>,
    sigf: Seq<(usize, Permisions)>,
    g: spec_fn(Map<usize, T>) -> Map<usize, T>,
    sigg: Seq<(usize, Permisions)>,
    m: Map<usize, T>,
)
    requires
        sys_effect_ok(f, sigf),
        sys_effect_ok(g, sigg),
        !spec_conflicts(sigf, sigg),
    ensures
        f(g(m)) == g(f(m)),
{
    assert forall|t: usize| writes_of(sigf).contains(t) implies !writes_of(sigg).contains(t)
        && !reads_of(sigg).contains(t) by {
        let i = choose|i: int| 0 <= i < sigf.len() && #[trigger] sigf[i] == (t, Permisions::Write);
        if writes_of(sigg).contains(t) {
            let j = choose|j: int|
                0 <= j < sigg.len() && #[trigger] sigg[j] == (t, Permisions::Write);
            assert(spec_conflicts(sigf, sigg));
        }
        if reads_of(sigg).contains(t) {
            let j = choose|j: int|
                0 <= j < sigg.len() && #[trigger] sigg[j] == (t, Permisions::Read);
            assert(spec_conflicts(sigf, sigg));
        }
    }
    assert forall|t: usize| writes_of(sigg).contains(t) implies !writes_of(sigf).contains(t)
        && !reads_of(sigf).contains(t) by {
        let i = choose|i: int| 0 <= i < sigg.len() && #[trigger] sigg[i] == (t, Permisions::Write);
        if writes_of(sigf).contains(t) {
            let j = choose|j: int|
                0 <= j < sigf.len() && #[trigger] sigf[j] == (t, Permisions::Write);
            assert(spec_conflicts(sigf, sigg));
        }
        if reads_of(sigf).contains(t) {
            let j = choose|j: int|
                0 <= j < sigf.len() && #[trigger] sigf[j] == (t, Permisions::Read);
            assert(spec_conflicts(sigf, sigg));
        }
    }
    assert(g(m).dom() == m.dom() && f(m).dom() == m.dom());
    assert(f(g(m)).dom() == m.dom() && g(f(m)).dom() == m.dom());
    assert(agrees_on(m, g(m), reads_of(sigf).union(writes_of(sigf))));
    assert(agrees_on(m, f(m), reads_of(sigg).union(writes_of(sigg))));
    assert forall|t: usize| #[trigger] m.dom().contains(t) implies f(g(m))[t] == g(f(m))[t] by {
        if writes_of(sigf).contains(t) {
            assert(g(f(m))[t] == f(m)[t]);
            assert(f(g(m))[t] == f(m)[t]);
        } else if writes_of(sigg).contains(t) {
            assert(f(g(m))[t] == g(m)[t]);
            assert(g(f(m))[t] == g(m)[t]);
        } else {
            assert(f(g(m))[t] == g(m)[t] && g(m)[t] == m[t]);
            assert(g(f(m))[t] == f(m)[t] && f(m)[t] == m[t]);
        }
    }
    assert(f(g(m)) =~= g(f(m)));
}

/// The state of the storages after running a list of system effects in
/// order.
pub open spec fn apply_effects<T>(
    effects: Seq<spec_fn(Map<usize, T>) -> Map<usize, T>>,
    m: Map<usize, T>,
) -> Map<usize, T>
    decreases effects.len(),
{
    if effects.len() == 0 {
        m
    } else {
        apply_effects(effects.drop_first(), effects[0](m))
    }
}

/// The state of the storages after running, one after the other, the effects
/// the index list selects.
pub open spec fn apply_in_order<T>(
    effects: Seq<spec_fn(Map<usize, T>) -> Map<usize, T>>,
    order: Seq<int>,
    m: Map<usize, T>,
) -> Map<usize, T>
    decreases order.len(),
{
    if order.len() == 0 {
        m
    } else {
        apply_in_order(effects, order.drop_first(), effects[order[0]](m))
    }
}

/// The index list names each effect at most once, all in range.
pub open spec fn order_valid(order: Seq<int>, n: int) -> bool {
    &&& forall|i: int| 0 <= i < order.len() ==> 0 <= #[trigger] order[i] < n
    &&& forall|i: int, j: int| 0 <= i < j < order.len() ==> order[i] != order[j]
}

/// All listed effects respect their signatures, and no two signatures
/// conflict: the systems of one dispatch stage.
pub open spec fn stage_ok<T>(
    effects: Seq<spec_fn(Map<usize, T>) -> Map<usize, T>>,
    sigs: Seq<Seq<(usize, Permisions)>>,
) -> bool {
    &&& effects.len() == sigs.len()
    &&& forall|j: int| 0 <= j < effects.len() ==> sys_effect_ok(#[trigger] effects[j], sigs[j])
    &&& forall|j: int, j2: int|
        0 <= j < effects.len() && 0 <= j2 < effects.len() && j != j2 ==> !spec_conflicts(
            #[trigger] sigs[j],
            #[trigger] sigs[j2],
        )
}

/// Dropping one entry of a stage leaves a stage.
proof fn lemma_stage_ok_remove<T>(
    effects: Seq<spec_fn(Map<usize, T>) -> Map<usize, T>>,
    sigs: Seq<Seq<(usize, Permisions)>>,
    k: int,
)
    requires
        stage_ok(effects, sigs),
        0 <= k < effects.len(),
    ensures
        stage_ok(effects.remove(k), sigs.remove(k)),
{
    let e2 = effects.remove(k);
    let s2 = sigs.remove(k);
    assert(forall|j: int|
        0 <= j < e2.len() ==> e2[j] == effects[#[trigger] shift_past(j, k)] && s2[j]
            == sigs[shift_past(j, k)]);
    assert forall|j: int| 0 <= j < e2.len() implies sys_effect_ok(#[trigger] e2[j], s2[j]) by {
        assert(sys_effect_ok(effects[shift_past(j, k)], sigs[shift_past(j, k)]));
    }
    assert forall|j: int, j2: int|
        0 <= j < e2.len() && 0 <= j2 < e2.len() && j != j2 implies !spec_conflicts(
        #[trigger] s2[j],
        #[trigger] s2[j2],
    ) by {
        assert(!spec_conflicts(sigs[shift_past(j, k)], sigs[shift_past(j2, k)]));
    }
}

/// The index as seen after removing position `k`: positions at or past `k`
/// shift up by one.
spec fn shift_past(j: int, k: int) -> int {
    if j < k {
        j
    } else {
        j + 1
    }
}

/// Running the effect at position `k` first and then the others in listed
/// order reaches the state the listed order reaches: an effect of a stage
/// commutes past everything before it.
proof fn lemma_effect_to_front<T>(
    effects: Seq<spec_fn(Map<usize, T>) -> Map<usize, T>>,
    sigs: Seq<Seq<(usize, Permisions)>>,
    k: int,
    m: Map<usize, T>,
)
    requires
        stage_ok(effects, sigs),
        0 <= k < effects.len(),
    ensures
        apply_effects(effects, m) == apply_effects(effects.remove(k), effects[k](m)),
    decreases k,
{
    let e1 = effects.drop_first();
    let s1 = sigs.drop_first();
    if k == 0 {
        assert(effects.remove(0) =~= e1);
    } else {
        assert(forall|j: int|
            0 <= j < e1.len() ==> e1[j] == effects[j + 1] && s1[j] == sigs[j + 1]);
        assert forall|j: int| 0 <= j < e1.len() implies sys_effect_ok(#[trigger] e1[j], s1[j]) by {
            assert(sys_effect_ok(effects[j + 1], sigs[j + 1]));
        }
        assert forall|j: int, j2: int|
            0 <= j < e1.len() && 0 <= j2 < e1.len() && j != j2 implies !spec_conflicts(
            #[trigger] s1[j],
            #[trigger] s1[j2],
        ) by {
            assert(!spec_conflicts(sigs[j + 1], sigs[j2 + 1]));
        }
        lemma_effect_to_front(e1, s1, k - 1, effects[0](m));
        assert(e1[k - 1] == effects[k]);
        lemma_nonconflicting_commute(effects[0], sigs[0], effects[k], sigs[k], m);
        let er = effects.remove(k);
        assert(er[0] == effects[0]);
        assert(er.drop_first() =~= e1.remove(k - 1));
        assert(apply_effects(er, effects[k](m)) == apply_effects(
            e1.remove(k - 1),
            effects[0](effects[k](m)),
        ));
        assert(apply_effects(effects, m) == apply_effects(e1, effects[0](m)));
    }
}

/// Translating an index list past a removed position selects the same
/// effects from the shorter list.
proof fn lemma_apply_in_order_remove<T>(
    effects: Seq<spec_fn(Map<usize, T>) -> Map<usize, T>>,
    k: int,
    order: Seq<int>,
    m: Map<usize, T>,
)
    requires
        0 <= k < effects.len(),
        forall|i: int| 0 <= i < order.len() ==> 0 <= #[trigger] order[i] < effects.len(),
        forall|i: int| 0 <= i < order.len() ==> #[trigger] order[i] != k,
    ensures
        apply_in_order(effects, order, m) == apply_in_order(
            effects.remove(k),
            order.map_values(|v: int| if v > k { v - 1 } else { v }),
            m,
        ),
    decreases order.len(),
{
    let order2 = order.map_values(|v: int| if v > k { v - 1 } else { v });
    if order.len() > 0 {
        assert(order2[0] == if order[0] > k {
            order[0] - 1
        } else {
            order[0]
        });
        assert(effects.remove(k)[order2[0]] == effects[order[0]]);
        lemma_apply_in_order_remove(effects, k, order.drop_first(), effects[order[0]](m));
        assert(order.drop_first().map_values(|v: int| if v > k { v - 1 } else { v })
            =~= order2.drop_first());
    }
}

/// Law: running the systems of one stage in any order at all — any
/// serialization a concurrent dispatch of pairwise-disjoint or
/// read-only-shared systems can exhibit — yields the same final storage state
/// as the listed sequential order.
pub proof fn lemma_stage_any_order<T>(
    effects: Seq<spec_fn(Map<usize, T>) -> Map<usize, T>>,
    sigs: Seq<Seq<(usize, Permisions)>>,
    order: Seq<int>,
    m: Map<usize, T>,
)
    requires
        stage_ok(effects, sigs),
        order_valid(order, effects.len() as int),
        order.len() == effects.len(),
    ensures
        apply_in_order(effects, order, m) == apply_effects(effects, m),
    decreases effects.len(),
{
    if effects.len() > 0 {
        let k = order[0];
        let m1 = effects[k](m);
        lemma_effect_to_front(effects, sigs, k, m);
        lemma_stage_ok_remove(effects, sigs, k);
        let rest = order.drop_first();
        assert(forall|i: int| 0 <= i < rest.len() ==> rest[i] == order[i + 1]);
        assert forall|i: int| 0 <= i < rest.len() implies 0 <= #[trigger] rest[i]
            < effects.len() && rest[i] != k by {
            assert(order[i + 1] != order[0]);
        }
        lemma_apply_in_order_remove(effects, k, rest, m1);
        let order2 = rest.map_values(|v: int| if v > k { v - 1 } else { v });
        assert forall|i: int| 0 <= i < order2.len() implies 0 <= #[trigger] order2[i]
            < effects.len() - 1 by {
            assert(rest[i] != k && 0 <= rest[i] < effects.len());
        }
        assert forall|i: int, j: int| 0 <= i < j < order2.len() implies order2[i] != order2[j] by {
            assert(order[i + 1] != order[j + 1]);
            assert(rest[i] != k && rest[j] != k);
        }
        lemma_stage_any_order(effects.remove(k), sigs.remove(k), order2, m1);
    }
}

} // verus!
