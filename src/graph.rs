use vstd::prelude::*;
use crate::krate::{Crate, crate_name};
use crate::text::chars_of;

verus! {

/// One resolved package: its raw id (`"name version (source)"`) and the raw
/// references of its dependencies, in order.
pub struct ResolveNode {
    pub id: String,
    pub dependencies: Vec<String>,
}

/// A resolved dependency graph: the node list of one metadata snapshot.
pub struct Resolve {
    pub nodes: Vec<ResolveNode>,
}

/// A node as the proofs see it: its raw id and its raw dependency references.
pub type NodeView = (Seq<char>, Seq<Seq<char>>);

impl View for ResolveNode {
    type V = NodeView;

    open spec fn view(&self) -> NodeView {
        (self.id@, self.dependencies@.map_values(|d: String| d@))
    }
}

impl View for Resolve {
    type V = Seq<NodeView>;

    open spec fn view(&self) -> Seq<NodeView> {
        self.nodes@.map_values(|n: ResolveNode| n@)
    }
}

/// A raw node id belongs to package `name` when it starts with the name
/// followed by a space.
pub open spec fn id_matches(id: Seq<char>, name: Seq<char>) -> bool {
    name.push(' ').is_prefix_of(id)
}

/// Some node of `g` belongs to `name`.
pub open spec fn has_node(g: Seq<NodeView>, name: Seq<char>) -> bool {
    exists|i: int| 0 <= i < g.len() && id_matches(#[trigger] g[i].0, name)
}

/// Node `i` is the first node of `g` that belongs to `name`.
pub open spec fn is_node_of(g: Seq<NodeView>, name: Seq<char>, i: int) -> bool {
    &&& 0 <= i < g.len()
    &&& id_matches(g[i].0, name)
    &&& forall|j: int| 0 <= j < i ==> !id_matches(#[trigger] g[j].0, name)
}

/// The identities that package `name` depends on directly, in the order its
/// node lists them; none when no node belongs to it.
pub open spec fn deps_of(g: Seq<NodeView>, name: Seq<char>) -> Seq<Seq<char>> {
    if has_node(g, name) {
        let i = choose|i: int| is_node_of(g, name, i);
        g[i].1.map_values(|d: Seq<char>| crate_name(d))
    } else {
        Seq::empty()
    }
}

/// There is an edge from `a` to `b`.
pub open spec fn edge(g: Seq<NodeView>, a: Seq<char>, b: Seq<char>) -> bool {
    deps_of(g, a).contains(b)
}

/// `p` is a walk along edges of `g` from `from` to `to`.
pub open spec fn is_walk(g: Seq<NodeView>, p: Seq<Seq<char>>, from: Seq<char>, to: Seq<char>) -> bool {
    &&& p.len() > 0
    &&& p[0] == from
    &&& p.last() == to
    &&& forall|i: int| 0 <= i < p.len() - 1 ==> edge(g, #[trigger] p[i], p[i + 1])
}

/// `to` can be reached from `from` (itself included) by a walk that never
/// passes through `avoid`.
pub open spec fn reaches_avoiding(
    g: Seq<NodeView>,
    from: Seq<char>,
    avoid: Set<Seq<char>>,
    to: Seq<char>,
) -> bool {
    exists|p: Seq<Seq<char>>|
        is_walk(g, p, from, to) && forall|i: int| 0 <= i < p.len() ==> !avoid.contains(#[trigger] p[i])
}

/// `to` can be reached from `from` (itself included).
pub open spec fn reaches(g: Seq<NodeView>, from: Seq<char>, to: Seq<char>) -> bool {
    exists|p: Seq<Seq<char>>| is_walk(g, p, from, to)
}

/// `to` can be reached from one of `roots`.
pub open spec fn reachable(g: Seq<NodeView>, roots: Seq<Seq<char>>, to: Seq<char>) -> bool {
    exists|k: int| 0 <= k < roots.len() && reaches(g, #[trigger] roots[k], to)
}

/// Every identity named by a dependency reference somewhere in `g`.
pub open spec fn dep_names(g: Seq<NodeView>) -> Set<Seq<char>>
    decreases g.len(),
{
    if g.len() == 0 {
        Set::empty()
    } else {
        dep_names(g.drop_last()).union(g.last().1.map_values(|d: Seq<char>| crate_name(d)).to_set())
    }
}

pub proof fn lemma_dep_names_finite(g: Seq<NodeView>)
    ensures
        dep_names(g).finite(),
    decreases g.len(),
{
    if g.len() > 0 {
        lemma_dep_names_finite(g.drop_last());
        g.last().1.map_values(|d: Seq<char>| crate_name(d)).lemma_cardinality_of_set();
    }
}

/// When some node belongs to `name`, a first one does.
pub proof fn lemma_first_node(g: Seq<NodeView>, name: Seq<char>)
    requires
        has_node(g, name),
    ensures
        exists|i: int| is_node_of(g, name, i),
{
    let w = choose|i: int| 0 <= i < g.len() && id_matches(#[trigger] g[i].0, name);
    lemma_first_node_below(g, name, w);
}

proof fn lemma_first_node_below(g: Seq<NodeView>, name: Seq<char>, w: int)
    requires
        0 <= w < g.len(),
        id_matches(g[w].0, name),
    ensures
        exists|i: int| is_node_of(g, name, i),
    decreases w,
{
    if forall|j: int| 0 <= j < w ==> !id_matches(#[trigger] g[j].0, name) {
        assert(is_node_of(g, name, w));
    } else {
        let v = choose|j: int| 0 <= j < w && id_matches(#[trigger] g[j].0, name);
        lemma_first_node_below(g, name, v);
    }
}

pub proof fn lemma_dep_in_dep_names(g: Seq<NodeView>, name: Seq<char>, k: int)
    requires
        0 <= k < deps_of(g, name).len(),
    ensures
        dep_names(g).contains(deps_of(g, name)[k]),
{
    lemma_first_node(g, name);
    let i = choose|i: int| is_node_of(g, name, i);
    lemma_node_dep_in_dep_names(g, i, k);
}

proof fn lemma_node_dep_in_dep_names(g: Seq<NodeView>, i: int, k: int)
    requires
        0 <= i < g.len(),
        0 <= k < g[i].1.len(),
    ensures
        dep_names(g).contains(crate_name(g[i].1[k])),
    decreases g.len(),
{
    let m = g.last().1.map_values(|d: Seq<char>| crate_name(d));
    if i == g.len() - 1 {
        assert(m[k] == crate_name(g[i].1[k]));
        assert(m.to_set().contains(m[k]));
    } else {
        assert(g.drop_last()[i] == g[i]);
        lemma_node_dep_in_dep_names(g.drop_last(), i, k);
    }
}

/// A walk extended by one edge is still a walk.
pub proof fn lemma_walk_push(g: Seq<NodeView>, p: Seq<Seq<char>>, from: Seq<char>, to: Seq<char>, next: Seq<char>)
    requires
        is_walk(g, p, from, to),
        edge(g, to, next),
    ensures
        is_walk(g, p.push(next), from, next),
{
    let q = p.push(next);
    assert forall|i: int| 0 <= i < q.len() - 1 implies edge(g, #[trigger] q[i], q[i + 1]) by {
        if i < p.len() - 1 {
            assert(q[i] == p[i] && q[i + 1] == p[i + 1]);
        }
    }
}

/// The index of the node that belongs to `name`, if any.
pub fn find_node(resolve: &Resolve, name: Crate) -> (r: Option<usize>)
    ensures
        match r {
            Some(i) => is_node_of(resolve@, name@, i as int),
            None => !has_node(resolve@, name@),
        },
{
    let key = chars_of(name.0);
    let ghost g = resolve@;
    let mut i: usize = 0;
    while i < resolve.nodes.len()
        invariant
            g == resolve@,
            key@ == name@,
            i <= resolve.nodes.len(),
            forall|j: int| 0 <= j < i ==> !id_matches(#[trigger] g[j].0, name@),
        decreases resolve.nodes.len() - i,
    {
        let id = chars_of(resolve.nodes[i].id.as_str());
        assert(g[i as int].0 == id@);
        if key.len() < id.len() && id[key.len()] == ' ' {
            let mut j: usize = 0;
            let mut same = true;
            while j < key.len()
                invariant
                    key@ == name@,
                    key.len() < id.len(),
                    j <= key.len(),
                    same == forall|m: int| 0 <= m < j ==> id@[m] == key@[m],
                decreases key.len() - j,
            {
                if id[j] != key[j] {
                    same = false;
                }
                j = j + 1;
            }
            if same {
                assert(name@.push(' ').is_prefix_of(id@)) by {
                    assert forall|m: int| 0 <= m < name@.push(' ').len() implies name@.push(' ')[m] == id@[m] by {
                        if m < key.len() {
                        }
                    }
                }
                return Some(i);
            }
            assert(!id_matches(id@, name@)) by {
                let m = choose|m: int| 0 <= m < key.len() && id@[m] != key@[m];
                assert(name@.push(' ')[m] == key@[m]);
            }
        } else {
            assert(!id_matches(id@, name@)) by {
                if id_matches(id@, name@) {
                    assert(name@.push(' ')[key.len() as int] == ' ');
                }
            }
        }
        i = i + 1;
    }
    None
}

} // verus!
