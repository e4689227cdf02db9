//! Topological ordering of directed graphs, by repeatedly removing a vertex
//! that no remaining vertex has an arc into, or by depth-first search.

pub mod adjacency;
pub mod depth_first;
pub mod successors;

use vstd::prelude::*;

verus! {

/// A directed graph as the ordering sees it.
pub trait ArcSet {
    /// The vertices.
    spec fn vertex_set(&self) -> Set<usize>;

    /// There is an arc `u -> v` between two vertices.
    spec fn arc(&self, u: usize, v: usize) -> bool;

    /// The vertices, each once.
    fn vertex_list(&self) -> (r: Vec<usize>)
        ensures
            r@.no_duplicates(),
            r@.to_set() == self.vertex_set(),
    ;

    /// Whether there is an arc `u -> v`.
    fn has_arc(&self, u: usize, v: usize) -> (r: bool)
        ensures
            r == self.arc(u, v),
    ;
}

/// `order` lists every vertex once, each arc going from an earlier vertex to
/// a later one.
pub open spec fn is_topological<G: ArcSet>(g: &G, order: Seq<usize>) -> bool {
    &&& order.no_duplicates()
    &&& order.to_set() == g.vertex_set()
    &&& forall|i: int, j: int|
        0 <= i < order.len() && 0 <= j < order.len() && #[trigger] g.arc(order[i], order[j]) ==> i
            < j
}

/// A nonempty set of vertices each of which has an arc into it from the
/// set: no order of the graph puts all of them after their predecessors.
pub proof fn lemma_no_order<G: ArcSet>(g: &G, rest: Set<usize>, order: Seq<usize>)
    requires
        rest.subset_of(g.vertex_set()),
        exists|v: usize| rest.contains(v),
        forall|v: usize| #[trigger] rest.contains(v) ==> exists|u: usize| rest.contains(u) && g.arc(u, v),
    ensures
        !is_topological(g, order),
{
    if is_topological(g, order) {
        let v0 = choose|v: usize| rest.contains(v);
        assert(order.to_set().contains(v0));
        let i0 = choose|i: int| 0 <= i < order.len() && order[i] == v0;
        lemma_first_in(g, rest, order, i0);
    }
}

/// From a member of `rest` at position `i` of a topological order there is
/// one at an earlier position, and so on down to the start: impossible.
proof fn lemma_first_in<G: ArcSet>(g: &G, rest: Set<usize>, order: Seq<usize>, i: int)
    requires
        rest.subset_of(g.vertex_set()),
        forall|v: usize| #[trigger] rest.contains(v) ==> exists|u: usize| rest.contains(u) && g.arc(u, v),
        0 <= i < order.len(),
        rest.contains(order[i]),
    ensures
        !is_topological(g, order),
    decreases i,
{
    if is_topological(g, order) {
        let v = order[i];
        let u = choose|u: usize| rest.contains(u) && g.arc(u, v);
        assert(order.to_set().contains(u));
        let k = choose|k: int| 0 <= k < order.len() && order[k] == u;
        assert(g.arc(order[k], order[i]));
        lemma_first_in(g, rest, order, k);
    }
}

/// Orders the vertices topologically: repeatedly takes the first remaining
/// vertex, in the order of `vertex_list`, with no arc into it from a
/// remaining vertex. Returns the order taken, or an empty vector when the
/// graph has a cycle (or no vertex).
pub fn remove_sources<G: ArcSet>(g: &G) -> (r: Vec<usize>)
    ensures
        r@.len() > 0 ==> is_topological(g, r@),
        r@.len() == 0 ==> g.vertex_set().len() == 0 || forall|order: Seq<usize>|
            !is_topological(g, order),
{
    let vertices = g.vertex_list();
    let n = vertices.len();
    proof {
        vertices@.unique_seq_to_set();
    }
    if n == 0 {
        return Vec::new();
    }
    let mut removed: Vec<bool> = Vec::new();
    let mut i: usize = 0;
    while i < n
        invariant
            i <= n,
            removed@.len() == i,
            forall|k: int| 0 <= k < i ==> !removed@[k],
        decreases n - i,
    {
        removed.push(false);
        i = i + 1;
    }
    let mut sorted: Vec<usize> = Vec::new();
    loop
        invariant
            n == vertices@.len(),
            n > 0,
            vertices@.no_duplicates(),
            vertices@.to_set() == g.vertex_set(),
            removed@.len() == n,
            sorted@.len() < n,
            sorted@.no_duplicates(),
            forall|k: int| 0 <= k < n ==> (removed@[k] <==> sorted@.contains(#[trigger] vertices@[k])),
            forall|p: int| 0 <= p < sorted@.len() ==> g.vertex_set().contains(#[trigger] sorted@[p]),
            forall|p: int, u: usize|
                0 <= p < sorted@.len() && #[trigger] g.arc(u, sorted@[p]) && g.vertex_set().contains(u)
                    ==> exists|q: int| 0 <= q < p && sorted@[q] == u,
        decreases n - sorted@.len(),
    {
        let mut pick: Option<usize> = None;
        let mut a: usize = 0;
        while a < n && pick.is_none()
            invariant
                n == vertices@.len(),
                removed@.len() == n,
                a <= n,
                pick is None ==> forall|k: int|
                    0 <= k < a && !removed@[k] ==> exists|m: int|
                        0 <= m < n && !removed@[m] && #[trigger] g.arc(vertices@[m], vertices@[k]),
                pick matches Some(p) ==> p < n && !removed@[p as int] && forall|m: int|
                    0 <= m < n && !removed@[m] ==> !#[trigger] g.arc(vertices@[m], vertices@[p as int]),
            decreases n - a + if pick is None {
                1int
            } else {
                0int
            },
        {
            if !removed[a] {
                let v = vertices[a];
                let mut has_pred = false;
                let mut b: usize = 0;
                while b < n
                    invariant
                        n == vertices@.len(),
                        removed@.len() == n,
                        a < n,
                        b <= n,
                        v == vertices@[a as int],
                        has_pred ==> exists|m: int|
                            0 <= m < n && !removed@[m] && #[trigger] g.arc(vertices@[m], v),
                        !has_pred ==> forall|m: int|
                            0 <= m < b && !removed@[m] ==> !#[trigger] g.arc(vertices@[m], v),
                    decreases n - b,
                {
                    if !has_pred && !removed[b] && g.has_arc(vertices[b], v) {
                        has_pred = true;
                    }
                    b = b + 1;
                }
                if !has_pred {
                    pick = Some(a);
                }
            }
            if pick.is_none() {
                a = a + 1;
            }
        }
        match pick {
            None => {
                proof {
                    let rest = Set::new(|v: usize| vertices@.contains(v) && !sorted@.contains(v));
                    assert(rest.subset_of(g.vertex_set()));
                    assert(exists|v: usize| rest.contains(v)) by {
                        if forall|k: int| 0 <= k < n ==> removed@[k] {
                            assert(vertices@.to_set().subset_of(sorted@.to_set()));
                            vertices@.unique_seq_to_set();
                            sorted@.unique_seq_to_set();
                            vstd::set_lib::lemma_len_subset(vertices@.to_set(), sorted@.to_set());
                        }
                        let k = choose|k: int| 0 <= k < n && !removed@[k];
                        assert(rest.contains(vertices@[k]));
                    }
                    assert forall|v: usize| #[trigger] rest.contains(v) implies exists|u: usize|
                        rest.contains(u) && g.arc(u, v) by {
                        let k = choose|k: int| 0 <= k < n && vertices@[k] == v;
                        let m = choose|m: int|
                            0 <= m < n && !removed@[m] && #[trigger] g.arc(vertices@[m], vertices@[k]);
                        assert(rest.contains(vertices@[m]));
                    }
                    assert forall|order: Seq<usize>| !is_topological(g, order) by {
                        if is_topological(g, order) {
                            lemma_no_order(g, rest, order);
                        }
                    }
                }
                return Vec::new();
            },
            Some(p) => {
                let v = vertices[p];
                let ghost prev = sorted@;
                removed.set(p, true);
                sorted.push(v);
                proof {
                    assert(!prev.contains(v));
                    assert forall|x: int, y: int| 0 <= x < y < sorted@.len() implies sorted@[x]
                        != sorted@[y] by {
                        if y == prev.len() {
                            assert(prev.contains(sorted@[x]));
                        }
                    }
                    assert forall|k: int| 0 <= k < n implies (removed@[k] <==> sorted@.contains(
                        #[trigger] vertices@[k],
                    )) by {
                        if k != p {
                            assert(vertices@[k] != v);
                            if sorted@.contains(vertices@[k]) {
                                let q = choose|q: int| 0 <= q < sorted@.len() && sorted@[q] == vertices@[k];
                                assert(prev[q] == vertices@[k]);
                            }
                            if prev.contains(vertices@[k]) {
                                let q = choose|q: int| 0 <= q < prev.len() && prev[q] == vertices@[k];
                                assert(sorted@[q] == vertices@[k]);
                            }
                        } else {
                            assert(sorted@[prev.len() as int] == v);
                        }
                    }
                    assert(vertices@.to_set().contains(v));
                    assert forall|q: int, u: usize|
                        0 <= q < sorted@.len() && #[trigger] g.arc(u, sorted@[q]) && g.vertex_set().contains(u)
                        implies exists|t: int| 0 <= t < q && sorted@[t] == u by {
                        if q == prev.len() {
                            assert(vertices@.to_set().contains(u));
                            let m = choose|m: int| 0 <= m < n && vertices@[m] == u;
                            assert(removed@[m]);
                            assert(prev.contains(u));
                            let t = choose|t: int| 0 <= t < prev.len() && prev[t] == u;
                            assert(sorted@[t] == u);
                        } else {
                            assert(sorted@[q] == prev[q]);
                            let t = choose|t: int| 0 <= t < q && prev[t] == u;
                            assert(sorted@[t] == u);
                        }
                    }
                }
                if sorted.len() == n {
                    proof {
                        sorted@.unique_seq_to_set();
                        vertices@.unique_seq_to_set();
                        assert(sorted@.to_set().subset_of(g.vertex_set()));
                        vstd::set_lib::lemma_subset_equality(sorted@.to_set(), g.vertex_set());
                        assert forall|i: int, j: int|
                            0 <= i < sorted@.len() && 0 <= j < sorted@.len() && #[trigger] g.arc(
                                sorted@[i],
                                sorted@[j],
                            ) implies i < j by {
                            let t = choose|t: int| 0 <= t < j && sorted@[t] == sorted@[i];
                            assert(t == i);
                        }
                    }
                    return sorted;
                }
            },
        }
    }
}

} // verus!
