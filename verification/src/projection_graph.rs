//! The dependency graph of a projection set: which projection reads which, and the search for a
//! directed cycle.

use vstd::prelude::*;

use crate::keyed::{keys_distinct, keys_of, sort_unique, Key, Keyed};
use crate::order::{compare_text, KeyOrder};
use crate::projection::{spec_projection_dependencies, spec_projection_id, ProjectionSpec};
use crate::rule_reference::ProjectionId;

verus! {

/// The projection at position `u` reads the projection at position `v`.
pub open spec fn reads_projection(specs: Seq<ProjectionSpec>, u: int, v: int) -> bool {
    &&& 0 <= u < specs.len()
    &&& 0 <= v < specs.len()
    &&& exists|t: int|
        0 <= t < spec_projection_dependencies(specs[u]).len() && (
        #[trigger] spec_projection_dependencies(specs[u])[t])@.0 == spec_projection_id(specs[v])@
}

/// `w` is a closed walk of positions along reads.
pub open spec fn closed_walk(specs: Seq<ProjectionSpec>, w: Seq<int>) -> bool {
    &&& w.len() >= 2
    &&& w[0] == w.last()
    &&& forall|t: int| 0 <= t < w.len() - 1 ==> reads_projection(specs, #[trigger] w[t], w[t + 1])
}

/// Some projections read each other in a circle.
pub open spec fn dependency_cyclic(specs: Seq<ProjectionSpec>) -> bool {
    exists|w: Seq<int>| closed_walk(specs, w)
}

/// `cycle` lists the identities along a closed walk.
pub open spec fn reported_cycle(specs: Seq<ProjectionSpec>, cycle: Seq<ProjectionId>) -> bool {
    exists|w: Seq<int>|
        closed_walk(specs, w) && w.len() == cycle.len() && forall|t: int|
            0 <= t < w.len() ==> #[trigger] cycle[t] == spec_projection_id(specs[w[t]])
}

/// Every projection a specification reads is declared.
pub open spec fn dependencies_declared(specs: Seq<ProjectionSpec>) -> bool {
    forall|u: int, t: int|
        0 <= u < specs.len() && 0 <= t < spec_projection_dependencies(specs[u]).len() ==> exists|
            v: int,
        |
            0 <= v < specs.len() && (#[trigger] spec_projection_dependencies(specs[u])[t])@.0
                == spec_projection_id(specs[v])@
}

/// The identities of the specifications are distinct.
pub open spec fn identities_distinct(specs: Seq<ProjectionSpec>) -> bool {
    forall|u: int, v: int|
        0 <= u < v < specs.len() ==> spec_projection_id(#[trigger] specs[u])@ != spec_projection_id(
            #[trigger] specs[v],
        )@
}

/// `order` lists finished positions without repetition, each after every position it reads, and
/// `done` marks exactly the positions listed.
pub open spec fn finish_order(specs: Seq<ProjectionSpec>, done: Seq<bool>, order: Seq<int>) -> bool {
    &&& done.len() == specs.len()
    &&& order.no_duplicates()
    &&& forall|p: int| 0 <= p < order.len() ==> 0 <= #[trigger] order[p] < specs.len()
    &&& forall|u: int| 0 <= u < specs.len() ==> (#[trigger] done[u] <==> order.contains(u))
    &&& forall|p: int, v: int|
        0 <= p < order.len() && #[trigger] reads_projection(specs, order[p], v) ==> exists|q: int|
            0 <= q < p && #[trigger] order[q] == v
}

/// `active` is a path of distinct unfinished positions along reads.
pub open spec fn active_path(specs: Seq<ProjectionSpec>, done: Seq<bool>, active: Seq<usize>) -> bool {
    &&& active.no_duplicates()
    &&& forall|i: int| 0 <= i < active.len() ==> (#[trigger] active[i]) < specs.len()
    &&& forall|i: int| 0 <= i < active.len() ==> !done[#[trigger] active[i] as int]
    &&& forall|i: int|
        0 <= i < active.len() - 1 ==> reads_projection(specs, #[trigger] active[i] as int, active[i + 1] as int)
}

proof fn lemma_active_bound(n: int, active: Seq<usize>)
    requires
        0 <= n,
        active.no_duplicates(),
        forall|i: int| 0 <= i < active.len() ==> (#[trigger] active[i]) < n,
    ensures
        active.len() <= n,
{
    let ints = active.map_values(|x: usize| x as int);
    assert forall|i: int, j: int| 0 <= i < j < ints.len() implies ints[i] != ints[j] by {
        assert(active[i] != active[j]);
    }
    assert(ints.no_duplicates());
    ints.unique_seq_to_set();
    vstd::set_lib::lemma_int_range(0, n);
    assert forall|x: int| ints.to_set().contains(x) implies vstd::set_lib::set_int_range(0, n).contains(x) by {
        let i = choose|i: int| 0 <= i < ints.len() && ints[i] == x;
        assert(active[i] < n);
    }
    vstd::set_lib::lemma_len_subset(ints.to_set(), vstd::set_lib::set_int_range(0, n));
}

/// The position of the specification with identity `id`, if one is declared.
pub(crate) fn position_of(specs: &Vec<ProjectionSpec>, id: &ProjectionId) -> (r: Option<usize>)
    ensures
        r matches Some(v) ==> v < specs@.len() && spec_projection_id(specs@[v as int])@ == id@,
        r is None ==> forall|v: int|
            0 <= v < specs@.len() ==> spec_projection_id(#[trigger] specs@[v])@ != id@,
{
    let mut v: usize = 0;
    while v < specs.len()
        invariant
            v <= specs@.len(),
            forall|q: int| 0 <= q < v ==> spec_projection_id(#[trigger] specs@[q])@ != id@,
        decreases specs.len() - v,
    {
        if specs[v].id() == id {
            return Some(v);
        }
        v = v + 1;
    }
    None
}

/// The closed walk that returning to `u`, found on the path at position `p`, describes.
spec fn closing_walk(active: Seq<usize>, p: int, u: usize) -> Seq<int> {
    active.subrange(p, active.len() as int).map_values(|x: usize| x as int).push(u as int)
}

proof fn lemma_closing_walk(s: Seq<ProjectionSpec>, done: Seq<bool>, active: Seq<usize>, p: int, u: usize)
    requires
        active_path(s, done, active),
        0 <= p < active.len(),
        active[p] == u,
        reads_projection(s, active.last() as int, u as int),
    ensures
        closed_walk(s, closing_walk(active, p, u)),
        closing_walk(active, p, u).len() == active.len() - p + 1,
        forall|t: int|
            0 <= t < active.len() - p ==> #[trigger] closing_walk(active, p, u)[t] == active[p + t] as int,
        closing_walk(active, p, u).last() == u as int,
{
    let n = active.len();
    let path = closing_walk(active, p, u);
    assert forall|t: int| 0 <= t < path.len() - 1 implies reads_projection(
        s,
        #[trigger] path[t],
        path[t + 1],
    ) by {
        if t < n - p - 1 {
            assert(path[t] == active[p + t] as int);
            assert(path[t + 1] == active[p + t + 1] as int);
        } else {
            assert(path[t] == active[n - 1] as int);
            assert(path[t + 1] == u as int);
        }
    }
    assert(path[0] == active[p] as int);
}

proof fn lemma_finish(s: Seq<ProjectionSpec>, done: Seq<bool>, order: Seq<int>, u: int)
    requires
        finish_order(s, done, order),
        0 <= u < s.len(),
        !done[u],
        forall|v: int| #[trigger] reads_projection(s, u, v) ==> done[v],
    ensures
        finish_order(s, done.update(u, true), order.push(u)),
{
    let o = order.push(u);
    let d = done.update(u, true);
    assert(!order.contains(u));
    assert(o.no_duplicates()) by {
        assert forall|i: int, j: int| 0 <= i < j < o.len() implies o[i] != o[j] by {
            if j == o.len() - 1 {
                assert(order.contains(o[i]));
            }
        }
    }
    assert forall|x: int| 0 <= x < s.len() implies (#[trigger] d[x] <==> o.contains(x)) by {
        if x == u {
            assert(o[o.len() - 1] == x);
        } else {
            if o.contains(x) {
                let i = choose|i: int| 0 <= i < o.len() && o[i] == x;
                assert(order[i] == x);
            }
            if order.contains(x) {
                let i = choose|i: int| 0 <= i < order.len() && order[i] == x;
                assert(o[i] == x);
            }
        }
    }
    assert forall|pp: int, v: int|
        0 <= pp < o.len() && #[trigger] reads_projection(s, o[pp], v) implies exists|q: int|
        0 <= q < pp && #[trigger] o[q] == v by {
        if pp == o.len() - 1 {
            assert(done[v]);
            assert(order.contains(v));
            let q = choose|q: int| 0 <= q < order.len() && order[q] == v;
            assert(o[q] == v);
        } else {
            assert(order[pp] == o[pp]);
            let q = choose|q: int| 0 <= q < pp && order[q] == v;
            assert(o[q] == v);
        }
    }
}

/// Depth-first search from position `u` with the current path `active`: a position met again on
/// the path closes a cycle, which is returned as the identities from that position onwards.
#[verifier::loop_isolation(false)]
#[verifier::spinoff_prover]
#[verifier::rlimit(40)]
fn visit(
    specs: &Vec<ProjectionSpec>,
    u: usize,
    active: &mut Vec<usize>,
    done: &mut Vec<bool>,
    order: &mut Ghost<Seq<int>>,
) -> (r: Option<Vec<ProjectionId>>)
    requires
        identities_distinct(specs@),
        dependencies_declared(specs@),
        u < specs@.len(),
        finish_order(specs@, old(done)@, old(order)@),
        active_path(specs@, old(done)@, old(active)@),
        old(active)@.len() > 0 ==> reads_projection(specs@, old(active)@.last() as int, u as int),
    ensures
        r matches Some(c) ==> reported_cycle(specs@, c@),
        r is None ==> {
            &&& final(active)@ == old(active)@
            &&& finish_order(specs@, final(done)@, final(order)@)
            &&& final(done)@[u as int]
            &&& forall|x: int| 0 <= x < specs@.len() && #[trigger] old(done)@[x] ==> final(done)@[x]
            &&& forall|x: int|
                0 <= x < specs@.len() && #[trigger] final(done)@[x] ==> old(done)@[x] || !old(
                    active,
                )@.contains(x as usize)
        },
    decreases specs@.len() - old(active)@.len(),
{
    let ghost s = specs@;
    let ghost start_active = active@;
    let ghost start_done = done@;
    let mut p: usize = 0;
    while p < active.len()
        invariant
            p <= active@.len(),
            active@ == start_active,
            forall|i: int| 0 <= i < p ==> active@[i] != u,
        decreases active.len() - p,
    {
        if active[p] == u {
            let mut cycle: Vec<ProjectionId> = Vec::new();
            let mut i: usize = p;
            while i < active.len()
                invariant
                    p <= i <= active@.len(),
                    cycle@.len() == i - p,
                    forall|j: int|
                        0 <= j < i - p ==> #[trigger] cycle@[j] == spec_projection_id(
                            s[active@[p + j] as int],
                        ),
                decreases active.len() - i,
            {
                let id = specs[active[i]].id().clone();
                cycle.push(id);
                i = i + 1;
            }
            let last = specs[u].id().clone();
            cycle.push(last);
            proof {
                lemma_closing_walk(s, start_done, start_active, p as int, u);
                let w = closing_walk(start_active, p as int, u);
                assert forall|t: int| 0 <= t < w.len() implies #[trigger] cycle@[t]
                    == spec_projection_id(s[w[t]]) by {
                    if t < start_active.len() - p {
                        assert(w[t] == start_active[p + t] as int);
                    }
                }
            }
            return Some(cycle);
        }
        p = p + 1;
    }
    proof {
        assert(!start_active.contains(u)) by {
            if start_active.contains(u) {
                let i = choose|i: int| 0 <= i < start_active.len() && start_active[i] == u;
                assert(active@[i] != u);
            }
        }
    }
    if done[u] {
        return None;
    }
    active.push(u);
    proof {
        assert(active_path(s, done@, active@)) by {
            assert forall|i: int| 0 <= i < active@.len() - 1 implies reads_projection(
                s,
                #[trigger] active@[i] as int,
                active@[i + 1] as int,
            ) by {
                if i < start_active.len() - 1 {
                    assert(active@[i] == start_active[i]);
                    assert(active@[i + 1] == start_active[i + 1]);
                }
            }
            assert forall|i: int, j: int| 0 <= i < j < active@.len() implies active@[i] != active@[j] by {
                if j == active@.len() - 1 {
                    assert(start_active.contains(active@[i]));
                }
            }
        }
        lemma_active_bound(s.len() as int, active@);
    }
    let deps = specs[u].dependencies();
    let ghost ds = spec_projection_dependencies(s[u as int]);
    let mut t: usize = 0;
    while t < deps.len()
        invariant
            t <= deps@.len(),
            active@ == start_active.push(u),
            active_path(s, done@, active@),
            finish_order(s, done@, order@),
            !done@[u as int],
            forall|x: int| 0 <= x < s.len() && #[trigger] start_done[x] ==> done@[x],
            forall|x: int|
                0 <= x < s.len() && #[trigger] done@[x] ==> start_done[x] || !active@.contains(
                    x as usize,
                ),
            forall|q: int, v: int|
                #![trigger ds[q], s[v]]
                0 <= q < t && 0 <= v < s.len() && ds[q]@.0 == spec_projection_id(s[v])@ ==> done@[v],
        decreases deps.len() - t,
    {
        let target = match position_of(specs, deps[t].id()) {
            Some(v) => v,
            None => {
                proof {
                    let v = choose|v: int|
                        0 <= v < s.len() && ds[t as int]@.0 == spec_projection_id(s[v])@;
                    assert(spec_projection_id(s[v])@ != deps@[t as int].spec_id()@);
                }
                return None;
            },
        };
        proof {
            assert(reads_projection(s, u as int, target as int)) by {
                assert(ds[t as int]@.0 == spec_projection_id(s[target as int])@);
            }
            assert(active@.last() == u);
        }
        let ghost before_done = done@;
        match visit(specs, target, active, done, order) {
            Some(c) => {
                return Some(c);
            },
            None => {},
        }
        proof {
            assert forall|q: int, v: int|
                #![trigger ds[q], s[v]]
                0 <= q < t + 1 && 0 <= v < s.len() && ds[q]@.0 == spec_projection_id(s[v])@ implies done@[v] by {
                if q == t {
                    if v != target {
                        if v < target {
                            assert(spec_projection_id(s[v])@ != spec_projection_id(
                                s[target as int],
                            )@);
                        } else {
                            assert(spec_projection_id(s[target as int])@ != spec_projection_id(
                                s[v],
                            )@);
                        }
                    }
                } else {
                    assert(before_done[v]);
                }
            }
            assert(active@.contains(u)) by {
                assert(active@[active@.len() - 1] == u);
            }
            assert(!done@[u as int]);
            assert forall|i: int| 0 <= i < active@.len() implies !done@[#[trigger] active@[i] as int] by {
                assert(active@.contains(active@[i]));
                assert(!before_done[active@[i] as int]);
            }
        }
        t = t + 1;
    }
    active.pop();
    proof {
        assert(active@ =~= start_active);
        assert forall|v: int| #[trigger] reads_projection(s, u as int, v) implies done@[v] by {
            let q = choose|q: int|
                0 <= q < ds.len() && (#[trigger] ds[q])@.0 == spec_projection_id(s[v])@;
            assert(ds[q]@.0 == spec_projection_id(s[v])@);
        }
        lemma_finish(s, done@, order@, u as int);
    }
    let ghost before_done = done@;
    done.set(u, true);
    *order = Ghost(order@.push(u as int));
    proof {
        assert(done@ == before_done.update(u as int, true));
        assert forall|x: int| 0 <= x < s.len() && #[trigger] done@[x] implies start_done[x]
            || !start_active.contains(x as usize) by {
            if x != u {
                assert(before_done[x]);
                if !start_done[x] && start_active.contains(x as usize) {
                    let i = choose|i: int| 0 <= i < start_active.len() && start_active[i] == x as usize;
                    assert(start_active.push(u)[i] == x as usize);
                    assert(start_active.push(u).contains(x as usize));
                }
            }
        }
    }
    None
}

/// A specification position keyed by its identity, for arranging the search roots.
struct Root {
    id: ProjectionId,
    index: usize,
}

impl Keyed for Root {
    closed spec fn key(&self) -> Key {
        seq![self.id@]
    }

    fn compare_keys(&self, other: &Self) -> (r: KeyOrder) {
        proof {
            crate::keyed::lemma_key_order_1(self.id@, other.id@);
        }
        compare_text(self.id.as_str(), other.id.as_str())
    }
}

/// No finished order leaves room for a closed walk.
proof fn lemma_finished_acyclic(specs: Seq<ProjectionSpec>, done: Seq<bool>, order: Seq<int>)
    requires
        finish_order(specs, done, order),
    ensures
        forall|w: Seq<int>|
            closed_walk(specs, w) ==> exists|t: int| 0 <= t < w.len() && !done[#[trigger] w[t]],
{
    assert forall|w: Seq<int>| closed_walk(specs, w) implies exists|t: int|
        0 <= t < w.len() && !done[#[trigger] w[t]] by {
        if forall|t: int| 0 <= t < w.len() ==> done[#[trigger] w[t]] {
            let pos = |x: int| choose|p: int| 0 <= p < order.len() && order[p] == x;
            assert forall|t: int| 0 <= t < w.len() implies 0 <= #[trigger] pos(w[t]) < order.len()
                && order[pos(w[t])] == w[t] by {
                assert(reads_projection(specs, w[if t < w.len() - 1 { t } else { 0 }], w[if t
                    < w.len() - 1 {
                    t + 1
                } else {
                    1
                }]));
                assert(done[w[t]]);
                assert(order.contains(w[t]));
            }
            assert forall|t: int| 0 <= t < w.len() - 1 implies pos(w[t + 1]) < #[trigger] pos(
                w[t],
            ) by {
                assert(0 <= pos(w[t]) < order.len() && order[pos(w[t])] == w[t]);
                assert(0 <= pos(w[t + 1]) < order.len() && order[pos(w[t + 1])] == w[t + 1]);
                assert(reads_projection(specs, order[pos(w[t])], w[t + 1]));
                let q = choose|q: int| 0 <= q < pos(w[t]) && #[trigger] order[q] == w[t + 1];
                if q != pos(w[t + 1]) {
                    assert(order[q] == order[pos(w[t + 1])]);
                }
            }
            lemma_descending(w, pos);
            assert(pos(w[w.len() - 1]) < pos(w[0]));
        }
    }
}

proof fn lemma_descending(w: Seq<int>, f: spec_fn(int) -> int)
    requires
        w.len() >= 2,
        forall|t: int| 0 <= t < w.len() - 1 ==> f(w[t + 1]) < #[trigger] f(w[t]),
    ensures
        f(w[w.len() - 1]) < f(w[0]),
    decreases w.len(),
{
    if w.len() > 2 {
        let v = w.drop_last();
        assert forall|t: int| 0 <= t < v.len() - 1 implies f(v[t + 1]) < #[trigger] f(v[t]) by {
            assert(v[t] == w[t] && v[t + 1] == w[t + 1]);
            assert(f(w[t + 1]) < f(w[t]));
        }
        lemma_descending(v, f);
        let m = w.len() - 2;
        assert(f(w[m + 1]) < f(w[m]));
    } else {
        assert(f(w[0int + 1]) < f(w[0int]));
    }
}

/// Searches for a dependency cycle, starting from each projection in canonical identity order
/// and following dependencies in declaration order.
#[verifier::loop_isolation(false)]
pub(crate) fn find_cycle(specs: &Vec<ProjectionSpec>) -> (r: Option<Vec<ProjectionId>>)
    requires
        identities_distinct(specs@),
        dependencies_declared(specs@),
    ensures
        r is None <==> !dependency_cyclic(specs@),
        r matches Some(c) ==> reported_cycle(specs@, c@),
{
    let ghost s = specs@;
    let n = specs.len();
    let mut entries: Vec<Root> = Vec::new();
    let mut i: usize = 0;
    while i < n
        invariant
            i <= n,
            n == s.len(),
            s == specs@,
            entries@.len() == i,
            forall|j: int| 0 <= j < i ==> (#[trigger] entries@[j]).index == j,
            forall|j: int| 0 <= j < i ==> (#[trigger] entries@[j]).id == spec_projection_id(s[j]),
        decreases n - i,
    {
        entries.push(Root { id: specs[i].id().clone(), index: i });
        i = i + 1;
    }
    let ghost all_entries = entries@;
    proof {
        assert forall|a: int, b: int| 0 <= a < b < all_entries.len() implies #[trigger] keys_of(
            all_entries,
        )[a] != #[trigger] keys_of(all_entries)[b] by {
            assert(all_entries[a].index == a);
            assert(all_entries[b].index == b);
            assert(all_entries[a].id@ == spec_projection_id(s[a])@);
            assert(all_entries[b].id@ == spec_projection_id(s[b])@);
            assert(keys_of(all_entries)[a][0] == all_entries[a].id@);
            assert(keys_of(all_entries)[b][0] == all_entries[b].id@);
        }
    }
    let roots = match sort_unique(entries) {
        Ok(v) => v,
        Err(_) => unreached(),
    };
    proof {
        crate::keyed::lemma_permutation_contains(roots@, all_entries);
        assert forall|j: int| 0 <= j < roots@.len() implies (#[trigger] roots@[j]).index < n by {
            assert(roots@.contains(roots@[j]));
            let q = choose|q: int| 0 <= q < all_entries.len() && all_entries[q] == roots@[j];
            assert(all_entries[q].index == q);
        }
    }
    let mut done = all_unset(n);
    let mut order: Ghost<Seq<int>> = Ghost(Seq::empty());
    let mut k: usize = 0;
    while k < roots.len()
        invariant
            k <= roots@.len(),
            s == specs@,
            n == s.len(),
            identities_distinct(s),
            dependencies_declared(s),
            forall|x: Root| roots@.contains(x) <==> all_entries.contains(x),
            all_entries.len() == n,
            forall|j: int| 0 <= j < n ==> (#[trigger] all_entries[j]).index == j,
            finish_order(s, done@, order@),
            forall|j: int| 0 <= j < roots@.len() ==> (#[trigger] roots@[j]).index < n,
            forall|j: int| 0 <= j < k ==> done@[(#[trigger] roots@[j]).index as int],
        decreases roots.len() - k,
    {
        let u = roots[k].index;
        proof {
            assert(roots@.contains(roots@[k as int]));
            let j = choose|j: int| 0 <= j < all_entries.len() && all_entries[j] == roots@[k as int];
            assert(all_entries[j].index == j);
            assert(u < n);
        }
        let mut active: Vec<usize> = Vec::new();
        let ghost before = done@;
        match visit(specs, u, &mut active, &mut done, &mut order) {
            Some(c) => {
                proof {
                    let w = choose|w: Seq<int>|
                        closed_walk(s, w) && w.len() == c@.len() && forall|t: int|
                            0 <= t < w.len() ==> #[trigger] c@[t] == spec_projection_id(s[w[t]]);
                    assert(closed_walk(s, w));
                }
                return Some(c);
            },
            None => {},
        }
        proof {
            assert forall|j: int| 0 <= j < k + 1 implies done@[(#[trigger] roots@[j]).index as int] by {
                if j < k {
                    assert(before[roots@[j].index as int]);
                }
            }
        }
        k = k + 1;
    }
    proof {
        assert forall|u: int| 0 <= u < n implies #[trigger] done@[u] by {
            assert(all_entries.contains(all_entries[u]));
            assert(roots@.contains(all_entries[u]));
            let j = choose|j: int| 0 <= j < roots@.len() && roots@[j] == all_entries[u];
            assert(roots@[j].index == u);
        }
        lemma_finished_acyclic(s, done@, order@);
        assert forall|w: Seq<int>| !closed_walk(s, w) by {
            if closed_walk(s, w) {
                let t = choose|t: int| 0 <= t < w.len() && !done@[#[trigger] w[t]];
                if t < w.len() - 1 {
                    assert(reads_projection(s, w[t], w[t + 1]));
                } else {
                    assert(reads_projection(s, w[0], w[1]));
                }
            }
        }
    }
    None
}

/// A vector of `n` unset flags.
fn all_unset(n: usize) -> (r: Vec<bool>)
    ensures
        r@.len() == n,
        forall|q: int| 0 <= q < n ==> !(#[trigger] r@[q]),
{
    let mut v: Vec<bool> = Vec::new();
    let mut i: usize = 0;
    while i < n
        invariant
            i <= n,
            v@.len() == i,
            forall|q: int| 0 <= q < i ==> !(#[trigger] v@[q]),
        decreases n - i,
    {
        v.push(false);
        i = i + 1;
    }
    v
}

} // verus!
