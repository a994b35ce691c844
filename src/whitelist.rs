use vstd::prelude::*;
use crate::graph::{
    Resolve, NodeView, has_node, is_node_of, deps_of, edge, is_walk, reaches_avoiding, reaches,
    reachable, dep_names, find_node, lemma_dep_names_finite, lemma_dep_in_dep_names, lemma_walk_push,
};
use crate::krate::{Crate, crate_name, names, holds_crate, add_sorted};
use crate::text::{strictly_sorted, lemma_sorted_unique};

verus! {

broadcast use vstd::seq_lib::group_seq_properties;

/// What one walk found, each list sorted and free of duplicates.
pub struct Findings<'a> {
    /// Reached identities that are not in the allow-set.
    pub unapproved: Vec<Crate<'a>>,
    /// Reached identities that no node of the graph belongs to.
    pub missing: Vec<Crate<'a>>,
}

/// The identities that a walk from `from` reaches without entering `avoid`.
pub open spec fn reached_set(g: Seq<NodeView>, from: Seq<char>, avoid: Set<Seq<char>>) -> Set<Seq<char>> {
    Set::new(|x: Seq<char>| reaches_avoiding(g, from, avoid, x))
}

/// The identities reachable from `roots` that `allow` does not hold.
pub open spec fn unapproved_set(g: Seq<NodeView>, roots: Seq<Seq<char>>, allow: Seq<Seq<char>>) -> Set<Seq<char>> {
    Set::new(|x: Seq<char>| reachable(g, roots, x) && !allow.contains(x))
}

/// The identities reachable from `roots` that no node of `g` belongs to.
pub open spec fn missing_set(g: Seq<NodeView>, roots: Seq<Seq<char>>) -> Set<Seq<char>> {
    Set::new(|x: Seq<char>| reachable(g, roots, x) && !has_node(g, x))
}

/// Every dependency of a member of `w` outside `v0` is in `w`.
pub open spec fn closed_outside(g: Seq<NodeView>, w: Set<Seq<char>>, v0: Set<Seq<char>>) -> bool {
    forall|y: Seq<char>, d: Seq<char>|
        w.contains(y) && !v0.contains(y) && #[trigger] edge(g, y, d) ==> w.contains(d)
}

proof fn lemma_node_unique(g: Seq<NodeView>, name: Seq<char>, i: int, j: int)
    requires
        is_node_of(g, name, i),
        is_node_of(g, name, j),
    ensures
        i == j,
{
}

/// The dependencies of the node found for `name` are the ones `deps_of` names.
proof fn lemma_deps_of_node(g: Seq<NodeView>, name: Seq<char>, i: int)
    requires
        is_node_of(g, name, i),
    ensures
        deps_of(g, name) == g[i].1.map_values(|d: Seq<char>| crate_name(d)),
{
    let k = choose|k: int| is_node_of(g, name, k);
    lemma_node_unique(g, name, i, k);
}

/// A walk that starts in `w`, avoids `v0`, and where `w` is closed outside
/// `v0`, stays in `w`.
proof fn lemma_walk_stays(
    g: Seq<NodeView>,
    p: Seq<Seq<char>>,
    from: Seq<char>,
    to: Seq<char>,
    w: Set<Seq<char>>,
    v0: Set<Seq<char>>,
    n: int,
)
    requires
        is_walk(g, p, from, to),
        forall|i: int| 0 <= i < p.len() ==> !v0.contains(#[trigger] p[i]),
        w.contains(from),
        closed_outside(g, w, v0),
        0 <= n < p.len(),
    ensures
        w.contains(p[n]),
    decreases n,
{
    if n > 0 {
        lemma_walk_stays(g, p, from, to, w, v0, n - 1);
        assert(edge(g, p[n - 1], p[n]));
    }
}

/// Pushes onto `stack` the identities of the dependencies of node `i`, in order.
fn push_deps<'a>(resolve: &'a Resolve, i: usize, stack: &mut Vec<Crate<'a>>)
    requires
        i < resolve@.len(),
    ensures
        names(final(stack)@) == names(old(stack)@) + resolve@[i as int].1.map_values(|d: Seq<char>| crate_name(d)),
{
    let deps = &resolve.nodes[i].dependencies;
    let ghost ds = resolve@[i as int].1.map_values(|d: Seq<char>| crate_name(d));
    assert(deps@.map_values(|d: String| d@) == resolve@[i as int].1);
    let mut j: usize = 0;
    while j < deps.len()
        invariant
            i < resolve@.len(),
            deps@.map_values(|d: String| d@) == resolve@[i as int].1,
            ds == resolve@[i as int].1.map_values(|d: Seq<char>| crate_name(d)),
            j <= deps.len(),
            names(stack@) == names(old(stack)@) + ds.subrange(0, j as int),
        decreases deps.len() - j,
    {
        let d = Crate::from_str(deps[j].as_str());
        assert(d@ == ds[j as int]);
        let ghost prev = stack@;
        stack.push(d);
        assert(names(stack@) =~= names(prev).push(d@));
        assert(ds.subrange(0, j + 1) == ds.subrange(0, j as int).push(d@));
        assert(names(stack@) =~= names(old(stack)@) + ds.subrange(0, j + 1));
        j = j + 1;
    }
    assert(ds.subrange(0, j as int) =~= ds);
}

/// Walks the graph from `krate`, skipping every identity already in
/// `visited`, and reports what it reached.
///
/// Each identity is expanded at most once: `visited` records expansions,
/// gains exactly the identities newly reached, and never holds one twice.
/// What is reported is the set of newly reached identities outside
/// `whitelist`, and the set of those without a node.
pub fn check_crate_whitelist<'a>(
    whitelist: &Vec<Crate<'a>>,
    resolve: &'a Resolve,
    visited: &mut Vec<Crate<'a>>,
    krate: Crate<'a>,
) -> (r: Findings<'a>)
    requires
        names(old(visited)@).no_duplicates(),
    ensures
        old(visited)@.is_prefix_of(final(visited)@),
        names(final(visited)@).no_duplicates(),
        names(final(visited)@).to_set() == names(old(visited)@).to_set().union(
            reached_set(resolve@, krate@, names(old(visited)@).to_set()),
        ),
        strictly_sorted(names(r.unapproved@)),
        strictly_sorted(names(r.missing@)),
        names(r.unapproved@).to_set() == reached_set(resolve@, krate@, names(old(visited)@).to_set()).filter(
            |x: Seq<char>| !names(whitelist@).contains(x),
        ),
        names(r.missing@).to_set() == reached_set(resolve@, krate@, names(old(visited)@).to_set()).filter(
            |x: Seq<char>| !has_node(resolve@, x),
        ),
{
    let ghost g = resolve@;
    let ghost allow = names(whitelist@);
    let ghost start = visited@;
    let ghost v0 = names(visited@).to_set();
    let ghost u = v0.union(dep_names(g)).insert(krate@);
    proof {
        lemma_dep_names_finite(g);
        names(visited@).lemma_cardinality_of_set();
    }
    let ghost mut w = v0;
    let mut unapproved: Vec<Crate<'a>> = Vec::new();
    let mut missing: Vec<Crate<'a>> = Vec::new();
    let mut stack: Vec<Crate<'a>> = Vec::new();
    stack.push(krate);
    proof {
        assert(names(stack@)[0] == krate@);
        if !v0.contains(krate@) {
            let p = seq![krate@];
            assert(is_walk(g, p, krate@, krate@));
        }
        assert(names(unapproved@).to_set() =~= w.difference(v0).filter(|x: Seq<char>| !allow.contains(x)));
        assert(names(missing@).to_set() =~= w.difference(v0).filter(|x: Seq<char>| !has_node(g, x)));
    }
    while stack.len() > 0
        invariant
            g == resolve@,
            allow == names(whitelist@),
            v0 == names(start).to_set(),
            start.is_prefix_of(visited@),
            names(visited@).no_duplicates(),
            w == names(visited@).to_set(),
            v0.subset_of(w),
            u == v0.union(dep_names(g)).insert(krate@),
            u.finite(),
            w.subset_of(u),
            forall|i: int| 0 <= i < stack.len() ==> u.contains(#[trigger] names(stack@)[i]),
            forall|x: Seq<char>| w.contains(x) && !v0.contains(x) ==> reaches_avoiding(g, krate@, v0, x),
            forall|i: int|
                0 <= i < stack.len() ==> v0.contains(#[trigger] names(stack@)[i]) || reaches_avoiding(
                    g,
                    krate@,
                    v0,
                    names(stack@)[i],
                ),
            forall|y: Seq<char>, d: Seq<char>|
                w.contains(y) && !v0.contains(y) && #[trigger] edge(g, y, d) ==> w.contains(d) || names(
                    stack@,
                ).contains(d),
            w.contains(krate@) || names(stack@).contains(krate@),
            strictly_sorted(names(unapproved@)),
            strictly_sorted(names(missing@)),
            names(unapproved@).to_set() == w.difference(v0).filter(|x: Seq<char>| !allow.contains(x)),
            names(missing@).to_set() == w.difference(v0).filter(|x: Seq<char>| !has_node(g, x)),
        decreases u.difference(w).len(), stack.len(),
    {
        let ghost before = names(stack@);
        let c = stack.pop().unwrap();
        proof {
            assert(before == names(stack@).push(c@));
            assert(u.contains(before[before.len() - 1]));
        }
        if holds_crate(visited, c) {
            proof {
                assert forall|y: Seq<char>, d: Seq<char>|
                    w.contains(y) && !v0.contains(y) && #[trigger] edge(g, y, d) implies w.contains(d) || names(
                        stack@,
                    ).contains(d) by {
                    if before.contains(d) && d != c@ {
                        let k = choose|k: int| 0 <= k < before.len() && before[k] == d;
                        assert(names(stack@)[k] == d);
                    }
                }
                if !w.contains(krate@) {
                    let k = choose|k: int| 0 <= k < before.len() && before[k] == krate@;
                    if k < before.len() - 1 {
                        assert(names(stack@)[k] == krate@);
                    }
                }
                assert forall|i: int| 0 <= i < stack.len() implies v0.contains(#[trigger] names(stack@)[i])
                    || reaches_avoiding(g, krate@, v0, names(stack@)[i]) by {
                    assert(names(stack@)[i] == before[i]);
                }
                assert forall|i: int| 0 <= i < stack.len() implies u.contains(#[trigger] names(stack@)[i]) by {
                    assert(names(stack@)[i] == before[i]);
                }
            }
            continue;
        }
        proof {
            assert(v0.contains(c@) || reaches_avoiding(g, krate@, v0, c@)) by {
                assert(before[before.len() - 1] == c@);
            }
            assert(!v0.contains(c@));
        }
        let ghost w_before = w;
        let ghost stack_mid = names(stack@);
        let ghost vis_before = visited@;
        visited.push(c);
        proof {
            w = w.insert(c@);
            assert(names(visited@) =~= names(vis_before).push(c@));
            assert(start.is_prefix_of(visited@)) by {
                assert forall|k: int| 0 <= k < start.len() implies start[k] == visited@[k] by {
                    assert(visited@[k] == vis_before[k]);
                }
            }
        }
        if !holds_crate(whitelist, c) {
            add_sorted(&mut unapproved, c);
        }
        proof {
            assert(names(unapproved@).to_set() =~= w.difference(v0).filter(|x: Seq<char>| !allow.contains(x)));
        }
        match find_node(resolve, c) {
            None => {
                add_sorted(&mut missing, c);
                proof {
                    assert(deps_of(g, c@) == Seq::<Seq<char>>::empty());
                    assert(names(stack@) == stack_mid);
                }
            },
            Some(i) => {
                push_deps(resolve, i, &mut stack);
                proof {
                    lemma_deps_of_node(g, c@, i as int);
                }
            },
        }
        proof {
            let ds = deps_of(g, c@);
            let ns = names(stack@);
            assert(ns == stack_mid + ds);
            assert(names(missing@).to_set() =~= w.difference(v0).filter(|x: Seq<char>| !has_node(g, x)));
            // every stack entry is in the universe and is reached (or already visited before)
            assert forall|k: int| 0 <= k < ns.len() implies u.contains(#[trigger] ns[k]) && (v0.contains(ns[k])
                || reaches_avoiding(g, krate@, v0, ns[k])) by {
                if k < stack_mid.len() {
                    assert(ns[k] == stack_mid[k]);
                    assert(stack_mid[k] == before[k]);
                } else {
                    let m = k - stack_mid.len();
                    assert(ns[k] == ds[m]);
                    lemma_dep_in_dep_names(g, c@, m);
                    if !v0.contains(ds[m]) {
                        let p = choose|p: Seq<Seq<char>>|
                            is_walk(g, p, krate@, c@) && forall|j: int| 0 <= j < p.len() ==> !v0.contains(#[trigger] p[j]);
                        assert(edge(g, c@, ds[m]));
                        lemma_walk_push(g, p, krate@, c@, ds[m]);
                        let q = p.push(ds[m]);
                        assert forall|j: int| 0 <= j < q.len() implies !v0.contains(#[trigger] q[j]) by {
                            if j < p.len() {
                                assert(q[j] == p[j]);
                            }
                        }
                    }
                }
            }
            assert forall|y: Seq<char>, d: Seq<char>|
                w.contains(y) && !v0.contains(y) && #[trigger] edge(g, y, d) implies w.contains(d) || ns.contains(d) by {
                if y == c@ {
                    let m = choose|m: int| 0 <= m < ds.len() && ds[m] == d;
                    assert(ns[stack_mid.len() + m] == d);
                } else {
                    assert(w_before.contains(y));
                    if !w_before.contains(d) {
                        assert(before.contains(d));
                        if d != c@ {
                            let k = choose|k: int| 0 <= k < before.len() && before[k] == d;
                            assert(k < stack_mid.len());
                            assert(ns[k] == d);
                        }
                    }
                }
            }
            if !w.contains(krate@) {
                let k = choose|k: int| 0 <= k < before.len() && before[k] == krate@;
                assert(k < stack_mid.len());
                assert(ns[k] == krate@);
            }
            assert(u.difference(w) =~= u.difference(w_before).remove(c@));
            assert(u.difference(w_before).contains(c@));
        }
    }
    proof {
        assert(closed_outside(g, w, v0)) by {
            assert forall|y: Seq<char>, d: Seq<char>|
                w.contains(y) && !v0.contains(y) && #[trigger] edge(g, y, d) implies w.contains(d) by {
                assert(!names(stack@).contains(d));
            }
        }
        assert(w.contains(krate@));
        let reached = reached_set(g, krate@, v0);
        assert forall|x: Seq<char>| reached.contains(x) implies w.contains(x) by {
            let p = choose|p: Seq<Seq<char>>|
                is_walk(g, p, krate@, x) && forall|j: int| 0 <= j < p.len() ==> !v0.contains(#[trigger] p[j]);
            lemma_walk_stays(g, p, krate@, x, w, v0, p.len() - 1);
        }
        assert(w.difference(v0) =~= reached);
        assert(w =~= v0.union(reached));
    }
    Findings { unapproved, missing }
}

/// The names in a result of the whitelist walk.
pub open spec fn outcome_names<'a>(r: Result<Vec<Crate<'a>>, Vec<Crate<'a>>>) -> Result<Seq<Seq<char>>, Seq<Seq<char>>> {
    match r {
        Ok(v) => Ok(names(v@)),
        Err(m) => Err(names(m@)),
    }
}

/// What a whitelist walk over `g` from `roots` with allow-set `allow` returns:
/// an error exactly when some reachable identity has no node, holding all of
/// those; otherwise every reachable identity outside `allow`. Either list is
/// sorted and free of duplicates.
pub open spec fn is_whitelist_outcome(
    g: Seq<NodeView>,
    roots: Seq<Seq<char>>,
    allow: Seq<Seq<char>>,
    r: Result<Seq<Seq<char>>, Seq<Seq<char>>>,
) -> bool {
    &&& (r is Err <==> exists|x: Seq<char>| reachable(g, roots, x) && !has_node(g, x))
    &&& match r {
        Ok(v) => strictly_sorted(v) && v.to_set() == unapproved_set(g, roots, allow),
        Err(m) => strictly_sorted(m) && m.to_set() == missing_set(g, roots),
    }
}

/// The walk is deterministic: on the same graph, roots and allow-set, any two
/// outcomes are the same, error or violation list alike.
pub proof fn lemma_outcome_deterministic(
    g: Seq<NodeView>,
    roots: Seq<Seq<char>>,
    allow: Seq<Seq<char>>,
    r1: Result<Seq<Seq<char>>, Seq<Seq<char>>>,
    r2: Result<Seq<Seq<char>>, Seq<Seq<char>>>,
)
    requires
        is_whitelist_outcome(g, roots, allow, r1),
        is_whitelist_outcome(g, roots, allow, r2),
    ensures
        r1 == r2,
{
    match (r1, r2) {
        (Ok(a), Ok(b)) => lemma_sorted_unique(a, b),
        (Err(a), Err(b)) => lemma_sorted_unique(a, b),
        _ => {},
    }
}

/// When the allow-set holds every reachable identity, no violation is
/// reported: the outcome is an empty list, or the error for missing nodes.
pub proof fn lemma_full_allow_set_no_violations(
    g: Seq<NodeView>,
    roots: Seq<Seq<char>>,
    allow: Seq<Seq<char>>,
    r: Result<Seq<Seq<char>>, Seq<Seq<char>>>,
)
    requires
        allow.to_set() == Set::new(|x: Seq<char>| reachable(g, roots, x)),
        is_whitelist_outcome(g, roots, allow, r),
    ensures
        r is Ok ==> r == Ok::<Seq<Seq<char>>, Seq<Seq<char>>>(Seq::empty()),
{
    if let Ok(v) = r {
        if v.len() > 0 {
            assert(v.to_set().contains(v[0]));
            assert(unapproved_set(g, roots, allow).contains(v[0]));
            assert(allow.to_set().contains(v[0]));
        }
        assert(v =~= Seq::empty());
    }
}

/// Every dependency of a member of `w` is in `w`.
pub open spec fn closed(g: Seq<NodeView>, w: Set<Seq<char>>) -> bool {
    forall|y: Seq<char>, d: Seq<char>| w.contains(y) && #[trigger] edge(g, y, d) ==> w.contains(d)
}

/// The identities reachable from the first `k` roots.
pub open spec fn reached_by_first(g: Seq<NodeView>, roots: Seq<Seq<char>>, k: int) -> Set<Seq<char>> {
    Set::new(|x: Seq<char>| exists|j: int| 0 <= j < k && reaches(g, #[trigger] roots[j], x))
}

proof fn lemma_closed_suffix(
    g: Seq<NodeView>,
    p: Seq<Seq<char>>,
    from: Seq<char>,
    to: Seq<char>,
    w: Set<Seq<char>>,
    i: int,
    n: int,
)
    requires
        is_walk(g, p, from, to),
        closed(g, w),
        0 <= i <= n < p.len(),
        w.contains(p[i]),
    ensures
        w.contains(p[n]),
    decreases n - i,
{
    if n > i {
        lemma_closed_suffix(g, p, from, to, w, i, n - 1);
        assert(edge(g, p[n - 1], p[n]));
    }
}

/// A walk from `r` either ends in a closed set `w` or never enters it.
proof fn lemma_reach_split(g: Seq<NodeView>, w: Set<Seq<char>>, r: Seq<char>, x: Seq<char>)
    requires
        closed(g, w),
        reaches(g, r, x),
    ensures
        w.contains(x) || reaches_avoiding(g, r, w, x),
{
    let p = choose|p: Seq<Seq<char>>| is_walk(g, p, r, x);
    if exists|i: int| 0 <= i < p.len() && w.contains(#[trigger] p[i]) {
        let i = choose|i: int| 0 <= i < p.len() && w.contains(#[trigger] p[i]);
        lemma_closed_suffix(g, p, r, x, w, i, p.len() - 1);
    } else {
        assert(forall|i: int| 0 <= i < p.len() ==> !w.contains(#[trigger] p[i]));
    }
}

/// Adds every identity of `from` to the sorted, duplicate-free `into`.
fn merge_sorted<'a>(into: &mut Vec<Crate<'a>>, from: &Vec<Crate<'a>>)
    requires
        strictly_sorted(names(old(into)@)),
    ensures
        strictly_sorted(names(final(into)@)),
        names(final(into)@).to_set() == names(old(into)@).to_set().union(names(from@).to_set()),
{
    let mut k: usize = 0;
    while k < from.len()
        invariant
            k <= from.len(),
            strictly_sorted(names(into@)),
            names(into@).to_set() == names(old(into)@).to_set().union(names(from@.subrange(0, k as int)).to_set()),
        decreases from.len() - k,
    {
        add_sorted(into, from[k]);
        assert(names(from@.subrange(0, k + 1)) =~= names(from@.subrange(0, k as int)).push(from@[k as int]@));
        assert(names(into@).to_set() =~= names(old(into)@).to_set().union(names(from@.subrange(0, k + 1)).to_set()));
        k = k + 1;
    }
    assert(from@.subrange(0, k as int) =~= from@);
}

/// Walks the graph from every root in turn, sharing one visited list, so
/// that no identity is expanded twice.
///
/// Fails exactly when some reachable identity has no node in the graph, and
/// then returns all such identities, sorted. Otherwise returns, sorted, the
/// reachable identities that `whitelist` does not hold.
pub fn check_whitelist_graph<'a>(
    whitelist: &Vec<Crate<'a>>,
    resolve: &'a Resolve,
    roots: &Vec<Crate<'a>>,
) -> (r: Result<Vec<Crate<'a>>, Vec<Crate<'a>>>)
    ensures
        is_whitelist_outcome(resolve@, names(roots@), names(whitelist@), outcome_names(r)),
{
    let ghost g = resolve@;
    let ghost allow = names(whitelist@);
    let ghost rts = names(roots@);
    let mut visited: Vec<Crate<'a>> = Vec::new();
    let mut unapproved: Vec<Crate<'a>> = Vec::new();
    let mut missing: Vec<Crate<'a>> = Vec::new();
    let mut k: usize = 0;
    proof {
        assert(names(visited@).to_set() =~= reached_by_first(g, rts, 0));
        assert(names(unapproved@).to_set() =~= reached_by_first(g, rts, 0).filter(|x: Seq<char>| !allow.contains(x)));
        assert(names(missing@).to_set() =~= reached_by_first(g, rts, 0).filter(|x: Seq<char>| !has_node(g, x)));
    }
    while k < roots.len()
        invariant
            g == resolve@,
            allow == names(whitelist@),
            rts == names(roots@),
            k <= roots.len(),
            names(visited@).no_duplicates(),
            names(visited@).to_set() == reached_by_first(g, rts, k as int),
            closed(g, reached_by_first(g, rts, k as int)),
            strictly_sorted(names(unapproved@)),
            strictly_sorted(names(missing@)),
            names(unapproved@).to_set() == reached_by_first(g, rts, k as int).filter(|x: Seq<char>| !allow.contains(x)),
            names(missing@).to_set() == reached_by_first(g, rts, k as int).filter(|x: Seq<char>| !has_node(g, x)),
        decreases roots.len() - k,
    {
        let ghost w = reached_by_first(g, rts, k as int);
        let ghost w2 = reached_by_first(g, rts, k + 1);
        let krate = roots[k];
        assert(krate@ == rts[k as int]);
        let found = check_crate_whitelist(whitelist, resolve, &mut visited, krate);
        merge_sorted(&mut unapproved, &found.unapproved);
        merge_sorted(&mut missing, &found.missing);
        proof {
            let reached = reached_set(g, krate@, w);
            assert forall|x: Seq<char>| w2.contains(x) <==> w.contains(x) || reached.contains(x) by {
                if w2.contains(x) {
                    let j = choose|j: int| 0 <= j < k + 1 && reaches(g, #[trigger] rts[j], x);
                    if j == k {
                        lemma_reach_split(g, w, krate@, x);
                    } else {
                        assert(w.contains(x));
                    }
                }
                if reached.contains(x) {
                    let p = choose|p: Seq<Seq<char>>|
                        is_walk(g, p, krate@, x) && forall|i: int| 0 <= i < p.len() ==> !w.contains(#[trigger] p[i]);
                    assert(reaches(g, rts[k as int], x));
                }
                if w.contains(x) {
                    let j = choose|j: int| 0 <= j < k && reaches(g, #[trigger] rts[j], x);
                    assert(reaches(g, rts[j], x));
                }
            }
            assert(names(visited@).to_set() =~= w2);
            assert(closed(g, w2)) by {
                assert forall|y: Seq<char>, d: Seq<char>| w2.contains(y) && #[trigger] edge(g, y, d) implies w2.contains(d) by {
                    let j = choose|j: int| 0 <= j < k + 1 && reaches(g, #[trigger] rts[j], y);
                    let p = choose|p: Seq<Seq<char>>| is_walk(g, p, rts[j], y);
                    lemma_walk_push(g, p, rts[j], y, d);
                    assert(reaches(g, rts[j], d));
                }
            }
            assert(names(unapproved@).to_set() =~= w2.filter(|x: Seq<char>| !allow.contains(x)));
            assert(names(missing@).to_set() =~= w2.filter(|x: Seq<char>| !has_node(g, x)));
        }
        k = k + 1;
    }
    proof {
        let all = reached_by_first(g, rts, k as int);
        assert forall|x: Seq<char>| all.contains(x) <==> reachable(g, rts, x) by {
            if reachable(g, rts, x) {
                let j = choose|j: int| 0 <= j < rts.len() && reaches(g, #[trigger] rts[j], x);
                assert(reaches(g, rts[j], x));
            }
        }
        assert(names(unapproved@).to_set() =~= unapproved_set(g, rts, allow));
        assert(names(missing@).to_set() =~= missing_set(g, rts));
    }
    if missing.len() > 0 {
        proof {
            let x = names(missing@)[0];
            assert(names(missing@).to_set().contains(x));
        }
        Err(missing)
    } else {
        proof {
            assert forall|x: Seq<char>| !(reachable(g, rts, x) && !has_node(g, x)) by {
                if reachable(g, rts, x) && !has_node(g, x) {
                    assert(missing_set(g, rts).contains(x));
                }
            }
        }
        Ok(unapproved)
    }
}

/// The packages whose whole dependency closure must be approved.
pub open spec fn whitelist_roots_spec() -> Seq<Seq<char>> {
    seq!["rustc"@, "rustc_trans"@]
}

/// The packages that the roots may depend on, directly or not.
pub open spec fn whitelist_spec() -> Seq<Seq<char>> {
    seq![
        "ar"@,
        "arena"@,
        "backtrace"@,
        "backtrace-sys"@,
        "bitflags"@,
        "build_helper"@,
        "byteorder"@,
        "cc"@,
        "cfg-if"@,
        "cmake"@,
        "filetime"@,
        "flate2"@,
        "fmt_macros"@,
        "fuchsia-zircon"@,
        "fuchsia-zircon-sys"@,
        "graphviz"@,
        "jobserver"@,
        "kernel32-sys"@,
        "lazy_static"@,
        "libc"@,
        "log"@,
        "log_settings"@,
        "miniz-sys"@,
        "num_cpus"@,
        "owning_ref"@,
        "parking_lot"@,
        "parking_lot_core"@,
        "rand"@,
        "redox_syscall"@,
        "rustc"@,
        "rustc-demangle"@,
        "rustc_allocator"@,
        "rustc_apfloat"@,
        "rustc_back"@,
        "rustc_binaryen"@,
        "rustc_const_eval"@,
        "rustc_const_math"@,
        "rustc_cratesio_shim"@,
        "rustc_data_structures"@,
        "rustc_errors"@,
        "rustc_incremental"@,
        "rustc_llvm"@,
        "rustc_mir"@,
        "rustc_platform_intrinsics"@,
        "rustc_trans"@,
        "rustc_trans_utils"@,
        "serialize"@,
        "smallvec"@,
        "stable_deref_trait"@,
        "syntax"@,
        "syntax_pos"@,
        "tempdir"@,
        "unicode-width"@,
        "winapi"@,
        "winapi-build"@,
    ]
}

/// The packages whose whole dependency closure must be approved.
pub fn whitelist_crates() -> (r: Vec<Crate<'static>>)
    ensures
        names(r@) == whitelist_roots_spec(),
{
    let mut r: Vec<Crate<'static>> = Vec::new();
    r.push(Crate("rustc"));
    r.push(Crate("rustc_trans"));
    assert(names(r@) =~= whitelist_roots_spec());
    r
}

/// The packages that the roots may depend on, directly or not. Avoid adding
/// to this list where possible.
#[verifier::rlimit(50)]
pub fn whitelist() -> (r: Vec<Crate<'static>>)
    ensures
        names(r@) == whitelist_spec(),
{
    let mut r: Vec<Crate<'static>> = Vec::new();
    r.push(Crate("ar"));
    r.push(Crate("arena"));
    r.push(Crate("backtrace"));
    r.push(Crate("backtrace-sys"));
    r.push(Crate("bitflags"));
    r.push(Crate("build_helper"));
    r.push(Crate("byteorder"));
    r.push(Crate("cc"));
    r.push(Crate("cfg-if"));
    r.push(Crate("cmake"));
    r.push(Crate("filetime"));
    r.push(Crate("flate2"));
    r.push(Crate("fmt_macros"));
    r.push(Crate("fuchsia-zircon"));
    r.push(Crate("fuchsia-zircon-sys"));
    r.push(Crate("graphviz"));
    r.push(Crate("jobserver"));
    r.push(Crate("kernel32-sys"));
    r.push(Crate("lazy_static"));
    r.push(Crate("libc"));
    r.push(Crate("log"));
    r.push(Crate("log_settings"));
    r.push(Crate("miniz-sys"));
    r.push(Crate("num_cpus"));
    r.push(Crate("owning_ref"));
    r.push(Crate("parking_lot"));
    r.push(Crate("parking_lot_core"));
    r.push(Crate("rand"));
    r.push(Crate("redox_syscall"));
    r.push(Crate("rustc"));
    r.push(Crate("rustc-demangle"));
    r.push(Crate("rustc_allocator"));
    r.push(Crate("rustc_apfloat"));
    r.push(Crate("rustc_back"));
    r.push(Crate("rustc_binaryen"));
    r.push(Crate("rustc_const_eval"));
    r.push(Crate("rustc_const_math"));
    r.push(Crate("rustc_cratesio_shim"));
    r.push(Crate("rustc_data_structures"));
    r.push(Crate("rustc_errors"));
    r.push(Crate("rustc_incremental"));
    r.push(Crate("rustc_llvm"));
    r.push(Crate("rustc_mir"));
    r.push(Crate("rustc_platform_intrinsics"));
    r.push(Crate("rustc_trans"));
    r.push(Crate("rustc_trans_utils"));
    r.push(Crate("serialize"));
    r.push(Crate("smallvec"));
    r.push(Crate("stable_deref_trait"));
    r.push(Crate("syntax"));
    r.push(Crate("syntax_pos"));
    r.push(Crate("tempdir"));
    r.push(Crate("unicode-width"));
    r.push(Crate("winapi"));
    r.push(Crate("winapi-build"));
    assert(names(r@) =~= whitelist_spec());
    r
}

} // verus!
