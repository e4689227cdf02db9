//! Graph representations: an undirected adjacency matrix and a directed
//! successors list. Both are built from an arc list whose first pair holds
//! the vertex count in its first component.
use std::collections::HashMap;
use std::collections::HashSet;
use vstd::prelude::*;
use crate::search::Adjacency;
use vstd::std_specs::iter::IteratorSpec;

verus! {

broadcast use vstd::std_specs::hash::group_hash_axioms;

/// Number of ones in a row of an adjacency matrix.
pub open spec fn count_ones(row: Seq<u8>) -> nat
    decreases row.len(),
{
    if row.len() == 0 {
        0
    } else {
        count_ones(row.drop_last()) + if row.last() == 1u8 { 1nat } else { 0nat }
    }
}

/// The vertex set `1..=n` of a graph with `n` vertices.
pub open spec fn id_range(n: int) -> Set<usize> {
    Set::new(|v: usize| 1 <= v <= n)
}

/// Whether the arc list (past its leading count pair) joins `u` and `v`
/// in either direction.
pub open spec fn joins(arcs: Seq<(usize, usize)>, u: usize, v: usize) -> bool {
    exists|i: int|
        1 <= i < arcs.len() && ((arcs[i].0 == u && arcs[i].1 == v) || (arcs[i].0 == v && arcs[i].1
            == u))
}

/// Undirected graph stored as a square 0/1 matrix indexed by vertex id;
/// row and column 0 are unused.
#[derive(Debug, PartialEq)]
pub struct AdjacencyMatrix {
    matrix: Vec<Vec<u8>>,
    nodes: HashSet<usize>,
}

impl AdjacencyMatrix {
    /// The matrix as a sequence of rows.
    pub closed spec fn rows(&self) -> Seq<Seq<u8>> {
        self.matrix.deep_view()
    }

    /// Number of rows of the matrix (one more than the vertex count for a
    /// built graph, zero for an empty one).
    pub closed spec fn size(&self) -> nat {
        self.matrix@.len()
    }

    /// The vertex set.
    pub closed spec fn vertices(&self) -> Set<usize> {
        self.nodes@
    }

    /// The matrix is square and the vertices are exactly `1..len`.
    pub closed spec fn wf(&self) -> bool {
        &&& forall|i: int| 0 <= i < self.matrix@.len() ==> #[trigger] self.matrix@[i]@.len()
            == self.matrix@.len()
        &&& self.nodes@ == id_range(self.matrix@.len() - 1)
    }

    /// Whether the matrix has a one at `(u, v)`.
    pub closed spec fn entry(&self, u: usize, v: usize) -> bool {
        u < self.matrix@.len() && v < self.matrix@.len() && self.matrix@[u as int]@[v as int]
            == 1u8
    }

    /// What a well-formed matrix is: square, of `size()` rows, with the
    /// vertices `1..size()`, and an entry exactly where a row holds a one.
    pub proof fn lemma_shape(&self)
        requires
            self.wf(),
        ensures
            self.rows().len() == self.size(),
            forall|u: int| 0 <= u < self.size() ==> (#[trigger] self.rows()[u]).len() == self.size(),
            self.vertices() == id_range(self.size() - 1),
            forall|u: usize, v: usize|
                #[trigger] self.entry(u, v) <==> (u < self.size() && v < self.size()
                    && self.rows()[u as int][v as int] == 1u8),
    {
        assert forall|u: int| 0 <= u < self.size() implies (#[trigger] self.rows()[u]) =~= self.matrix@[u]@ by {}
    }

    /// Creates an empty graph.
    pub fn new() -> (r: Self)
        ensures
            r.wf(),
            r.size() == 0,
            r.vertices() == Set::<usize>::empty(),
    {
        let r = Self { matrix: Vec::new(), nodes: HashSet::new() };
        assert(r.nodes@ =~= id_range(-1));
        r
    }

    /// Builds the matrix of a graph from an arc list. The first pair gives
    /// the vertex count `n` in its first component; every further pair is
    /// an edge, stored in both directions.
    pub fn from(arcs: Vec<(usize, usize)>) -> (r: Self)
        requires
            arcs.len() >= 1,
            arcs[0].0 < usize::MAX,
            forall|i: int|
                1 <= i < arcs.len() ==> #[trigger] arcs[i].0 <= arcs[0].0 && arcs[i].1
                    <= arcs[0].0,
        ensures
            r.wf(),
            r.size() == arcs[0].0 + 1,
            r.vertices() == id_range(arcs[0].0 as int),
            r.rows().len() == arcs[0].0 + 1,
            forall|u: int| 0 <= u <= arcs[0].0 ==> (#[trigger] r.rows()[u]).len() == arcs[0].0 + 1,
            forall|u: int, v: int|
                0 <= u <= arcs[0].0 && 0 <= v <= arcs[0].0 ==> #[trigger] r.rows()[u][v] == if joins(
                    arcs@,
                    u as usize,
                    v as usize,
                ) {
                    1u8
                } else {
                    0u8
                },
            forall|u: usize, v: usize|
                #[trigger] r.entry(u, v) <==> (u <= arcs[0].0 && v <= arcs[0].0 && joins(
                    arcs@,
                    u,
                    v,
                )),
    {
        let n = arcs[0].0;
        let size = n + 1;
        let mut nodes: HashSet<usize> = HashSet::new();
        let mut v: usize = 1;
        while v <= n
            invariant
                1 <= v <= n + 1,
                n < usize::MAX,
                nodes@ == id_range(v - 1),
            decreases n + 1 - v,
        {
            nodes.insert(v);
            assert(nodes@ =~= id_range(v as int));
            v = v + 1;
        }
        let mut matrix: Vec<Vec<u8>> = Vec::new();
        let mut i: usize = 0;
        while i < size
            invariant
                i <= size,
                size == n + 1,
                matrix@.len() == i,
                forall|k: int| 0 <= k < i ==> #[trigger] matrix@[k]@.len() == size,
                forall|k: int, j: int| 0 <= k < i && 0 <= j < size ==> matrix@[k]@[j] == 0u8,
            decreases size - i,
        {
            let mut row: Vec<u8> = Vec::new();
            let mut j: usize = 0;
            while j < size
                invariant
                    j <= size,
                    row@.len() == j,
                    forall|k: int| 0 <= k < j ==> row@[k] == 0u8,
                decreases size - j,
            {
                row.push(0);
                j = j + 1;
            }
            assert(row@ =~= Seq::new(size as nat, |k: int| 0u8));
            matrix.push(row);
            i = i + 1;
        }
        let mut a: usize = 1;
        while a < arcs.len()
            invariant
                1 <= a <= arcs.len(),
                size == n + 1,
                n == arcs[0].0,
                forall|i: int|
                    1 <= i < arcs.len() ==> #[trigger] arcs[i].0 <= arcs[0].0 && arcs[i].1
                        <= arcs[0].0,
                matrix@.len() == size,
                forall|k: int| 0 <= k < size ==> #[trigger] matrix@[k]@.len() == size,
                forall|u: int, v: int|
                    0 <= u < size && 0 <= v < size ==> (matrix@[u]@[v] == 1u8 <==> exists|i: int|
                        1 <= i < a && ((arcs[i].0 == u && arcs[i].1 == v) || (arcs[i].0 == v
                            && arcs[i].1 == u))),
                forall|u: int, v: int|
                    0 <= u < size && 0 <= v < size ==> (matrix@[u]@[v] == 0u8 || matrix@[u]@[v]
                        == 1u8),
            decreases arcs.len() - a,
        {
            let (from, to) = arcs[a];
            Self::set_entry(&mut matrix, from, to);
            Self::set_entry(&mut matrix, to, from);
            assert forall|u: int, v: int|
                0 <= u < size && 0 <= v < size implies (matrix@[u]@[v] == 1u8 <==> exists|i: int|
                    1 <= i < a + 1 && ((arcs[i].0 == u && arcs[i].1 == v) || (arcs[i].0 == v
                        && arcs[i].1 == u))) by {
                if matrix@[u]@[v] == 1u8 && !((from == u && to == v) || (from == v && to == u)) {
                    let i = choose|i: int|
                        1 <= i < a && ((arcs[i].0 == u && arcs[i].1 == v) || (arcs[i].0 == v
                            && arcs[i].1 == u));
                    assert(1 <= i < a + 1);
                }
                if (from == u && to == v) || (from == v && to == u) {
                    assert(1 <= a < a + 1 && ((arcs[a as int].0 == u && arcs[a as int].1 == v) || (
                    arcs[a as int].0 == v && arcs[a as int].1 == u)));
                }
            }
            a = a + 1;
        }
        let r = Self { matrix, nodes };
        assert forall|u: usize, v: usize|
            #[trigger] r.entry(u, v) <==> (u <= arcs[0].0 && v <= arcs[0].0 && joins(
                arcs@,
                u,
                v,
            )) by {
            if u <= arcs[0].0 && v <= arcs[0].0 {
                assert(r.matrix@[u as int]@[v as int] == 1u8 <==> exists|i: int|
                    1 <= i < arcs.len() && ((arcs[i].0 == u && arcs[i].1 == v) || (arcs[i].0 == v
                        && arcs[i].1 == u)));
            }
        }
        assert forall|u: int| 0 <= u <= arcs[0].0 implies (#[trigger] r.rows()[u]) =~= r.matrix@[u]@ by {}
        assert forall|u: int, v: int|
            0 <= u <= arcs[0].0 && 0 <= v <= arcs[0].0 implies #[trigger] r.rows()[u][v] == if joins(
                arcs@,
                u as usize,
                v as usize,
            ) {
                1u8
            } else {
                0u8
            } by {
            assert(r.rows()[u] =~= r.matrix@[u]@);
            assert(r.matrix@[u]@[v] == 1u8 <==> exists|i: int|
                1 <= i < arcs.len() && ((arcs[i].0 == u && arcs[i].1 == v) || (arcs[i].0 == v
                    && arcs[i].1 == u)));
        }
        r
    }

    /// Number of vertices.
    pub fn vertex_count(&self) -> (r: usize)
        ensures
            r == self.vertices().len(),
    {
        self.nodes.len()
    }

    /// Returns the smallest neighbour of `node`, or `None` when `node` has
    /// no neighbour or is not a vertex.
    pub fn next(&self, node: usize) -> (r: Option<usize>)
        requires
            self.wf(),
        ensures
            !self.vertices().contains(node) ==> r is None,
            self.vertices().contains(node) ==> match r {
                Some(k) => self.entry(node, k) && forall|j: usize| j < k ==> !self.entry(node, j),
                None => forall|j: usize| !self.entry(node, j),
            },
    {
        if !self.nodes.contains(&node) {
            return None;
        }
        let row = &self.matrix[node];
        let mut k: usize = 0;
        while k < row.len()
            invariant
                self.wf(),
                self.nodes@.contains(node),
                node < self.matrix@.len(),
                row@ == self.matrix@[node as int]@,
                k <= row.len(),
                forall|j: usize| j < k ==> !self.entry(node, j),
            decreases row.len() - k,
        {
            if row[k] == 1 {
                return Some(k);
            }
            k = k + 1;
        }
        None
    }

    /// Removes the edge between `from` and `to`; does nothing when either
    /// is not a vertex.
    pub fn remove_edge(&mut self, from: usize, to: usize)
        requires
            old(self).wf(),
        ensures
            final(self).wf(),
            final(self).size() == old(self).size(),
            final(self).vertices() == old(self).vertices(),
            forall|u: usize, v: usize|
                #[trigger] final(self).entry(u, v) == (old(self).entry(u, v) && !(old(
                    self,
                ).vertices().contains(from) && old(self).vertices().contains(to) && ((u == from
                    && v == to) || (u == to && v == from)))),
    {
        if self.nodes.contains(&from) && self.nodes.contains(&to) {
            Self::clear_entry(&mut self.matrix, from, to);
            Self::clear_entry(&mut self.matrix, to, from);
        }
    }

    /// Returns the degree of `node` (the number of edges at it), or `None`
    /// when `node` is not a vertex.
    pub fn deg(&self, node: usize) -> (r: Option<usize>)
        requires
            self.wf(),
        ensures
            r == if self.vertices().contains(node) {
                Some(count_ones(self.rows()[node as int]) as usize)
            } else {
                None::<usize>
            },
    {
        if !self.nodes.contains(&node) {
            return None;
        }
        let row = &self.matrix[node];
        let mut count: usize = 0;
        let mut k: usize = 0;
        while k < row.len()
            invariant
                k <= row.len(),
                count == count_ones(row@.subrange(0, k as int)),
                count <= k,
            decreases row.len() - k,
        {
            assert(row@.subrange(0, k + 1).drop_last() =~= row@.subrange(0, k as int));
            if row[k] == 1 {
                count = count + 1;
            }
            k = k + 1;
        }
        assert(row@.subrange(0, row@.len() as int) =~= row@);
        assert(self.rows()[node as int] == row@);
        Some(count)
    }

    /// Whether the graph has at least one edge.
    pub fn has_edges(&self) -> (r: bool)
        requires
            self.wf(),
        ensures
            r == exists|u: usize, v: usize| self.entry(u, v),
    {
        let mut i: usize = 0;
        while i < self.matrix.len()
            invariant
                self.wf(),
                i <= self.matrix@.len(),
                forall|u: usize, v: usize| u < i ==> !self.entry(u, v),
            decreases self.matrix@.len() - i,
        {
            let row = &self.matrix[i];
            let mut j: usize = 0;
            while j < row.len()
                invariant
                    self.wf(),
                    i < self.matrix@.len(),
                    row@ == self.matrix@[i as int]@,
                    j <= row.len(),
                    forall|v: usize| v < j ==> !self.entry(i, v),
                decreases row.len() - j,
            {
                if row[j] == 1 {
                    assert(self.entry(i, j));
                    return true;
                }
                j = j + 1;
            }
            i = i + 1;
        }
        false
    }

    /// Returns a copy of the matrix.
    pub fn matrix_mut(&self) -> (r: Vec<Vec<u8>>)
        ensures
            r.deep_view() == self.rows(),
    {
        self.matrix.clone()
    }

    /// Returns the matrix.
    pub fn matrix(&self) -> (r: &Vec<Vec<u8>>)
        ensures
            r.deep_view() == self.rows(),
    {
        &self.matrix
    }

    /// Returns the vertex set.
    pub fn nodes(&self) -> (r: &HashSet<usize>)
        ensures
            r@ == self.vertices(),
    {
        &self.nodes
    }

    /// Writes a zero at `(u, v)`.
    fn clear_entry(matrix: &mut Vec<Vec<u8>>, u: usize, v: usize)
        requires
            u < old(matrix)@.len(),
            v < old(matrix)@.len(),
            forall|k: int| 0 <= k < old(matrix)@.len() ==> #[trigger] old(matrix)@[k]@.len()
                == old(matrix)@.len(),
        ensures
            final(matrix)@.len() == old(matrix)@.len(),
            forall|k: int| 0 <= k < final(matrix)@.len() ==> #[trigger] final(matrix)@[k]@.len()
                == final(matrix)@.len(),
            forall|i: int, j: int|
                0 <= i < final(matrix)@.len() && 0 <= j < final(matrix)@.len() ==> final(matrix)@[i]@[j]
                    == if i == u && j == v {
                    0u8
                } else {
                    old(matrix)@[i]@[j]
                },
    {
        matrix[u][v] = 0;
    }

    /// Writes a one at `(u, v)`.
    fn set_entry(matrix: &mut Vec<Vec<u8>>, u: usize, v: usize)
        requires
            u < old(matrix)@.len(),
            forall|k: int| 0 <= k < old(matrix)@.len() ==> #[trigger] old(matrix)@[k]@.len()
                == old(matrix)@.len(),
        ensures
            final(matrix)@.len() == old(matrix)@.len(),
            forall|k: int| 0 <= k < final(matrix)@.len() ==> #[trigger] final(matrix)@[k]@.len()
                == final(matrix)@.len(),
            v < old(matrix)@.len() ==> forall|i: int, j: int|
                0 <= i < final(matrix)@.len() && 0 <= j < final(matrix)@.len() ==> final(matrix)@[i]@[j]
                    == if i == u && j == v {
                    1u8
                } else {
                    old(matrix)@[i]@[j]
                },
    {
        if v < matrix.len() {
            matrix[u][v] = 1;
        }
    }
}

/// `s` is strictly ascending.
pub open spec fn strictly_ascending(s: Seq<usize>) -> bool {
    forall|i: int, j: int| 0 <= i < j < s.len() ==> s[i] < s[j]
}

/// Adds `x` to the strictly ascending `s` unless it is there already,
/// keeping it strictly ascending.
fn insert_new_ascending(s: &mut Vec<usize>, x: usize)
    requires
        strictly_ascending(old(s)@),
    ensures
        strictly_ascending(final(s)@),
        forall|v: usize| #[trigger] final(s)@.contains(v) <==> (old(s)@.contains(v) || v == x),
{
    let mut p: usize = 0;
    while p < s.len() && s[p] < x
        invariant
            p <= s@.len(),
            forall|i: int| 0 <= i < p ==> s@[i] < x,
        decreases s@.len() - p,
    {
        p = p + 1;
    }
    if p < s.len() && s[p] == x {
        return;
    }
    let ghost before = s@;
    s.insert(p, x);
    proof {
        assert forall|i: int, j: int| 0 <= i < j < s@.len() implies s@[i] < s@[j] by {
            if j > p && p < before.len() {
                assert(before[p as int] > x);
            }
        }
        assert forall|v: usize| #[trigger] s@.contains(v) <==> (before.contains(v) || v == x) by {
            if before.contains(v) {
                let k = choose|k: int| 0 <= k < before.len() && before[k] == v;
                if k < p {
                    assert(s@[k] == v);
                } else {
                    assert(s@[k + 1] == v);
                }
            }
            if v == x {
                assert(s@[p as int] == x);
            }
            if s@.contains(v) {
                let k = choose|k: int| 0 <= k < s@.len() && s@[k] == v;
                if k < p {
                    assert(before[k] == v);
                } else if k > p {
                    assert(before[k - 1] == v);
                }
            }
        }
    }
}

/// The keys of a map, in the map's iteration order.
pub(crate) fn key_list(m: &HashMap<usize, Vec<usize>>) -> (r: Vec<usize>)
    ensures
        r@.to_set() == m@.dom(),
        r@.no_duplicates(),
{
    let mut r: Vec<usize> = Vec::new();
    let keys = m.keys();
    let ghost ks = keys.remaining();
    for k in it: keys
        invariant
            it.seq() == ks,
            r@ == ks.take(it.index()).map_values(|x: &usize| *x),
    {
        r.push(*k);
    }
    assert(r@ =~= ks.map_values(|x: &usize| *x));
    assert(ks.unref() =~= ks.map_values(|x: &usize| *x));
    r
}

/// Whether `s` holds `x`.
pub fn seq_contains(s: &Vec<usize>, x: usize) -> (r: bool)
    ensures
        r == s@.contains(x),
{
    let mut i: usize = 0;
    while i < s.len()
        invariant
            i <= s.len(),
            forall|j: int| 0 <= j < i ==> s@[j] != x,
        decreases s.len() - i,
    {
        if s[i] == x {
            return true;
        }
        i = i + 1;
    }
    false
}

/// Directed graph stored as a map from each vertex to its successors.
#[derive(Clone, Debug, PartialEq)]
pub struct SuccessorsList {
    list: HashMap<usize, Vec<usize>>,
}

impl SuccessorsList {
    /// The successors of each vertex.
    pub closed spec fn succ(&self) -> Map<usize, Seq<usize>> {
        self.list@.map_values(|v: Vec<usize>| v@)
    }

    /// Creates an empty graph.
    pub fn new() -> (r: Self)
        ensures
            r.succ() == Map::<usize, Seq<usize>>::empty(),
    {
        let r = Self { list: HashMap::new() };
        assert(r.succ() =~= Map::<usize, Seq<usize>>::empty());
        r
    }

    /// Wraps an existing successor map.
    pub fn from_list(list: HashMap<usize, Vec<usize>>) -> (r: Self)
        ensures
            r.succ() == list@.map_values(|v: Vec<usize>| v@),
    {
        Self { list }
    }

    /// Builds the successors list of a graph from an arc list. The first
    /// pair gives the vertex count `n` in its first component; every further
    /// pair is an arc. The vertices are `1..=n` and every arc's source; each
    /// vertex lists its successors once each, in ascending order.
    pub fn from(arcs: Vec<(usize, usize)>) -> (r: Self)
        requires
            arcs.len() >= 1,
        ensures
            forall|k: usize|
                #[trigger] r.succ().contains_key(k) <==> (1 <= k <= arcs[0].0 || exists|i: int|
                    1 <= i < arcs.len() && arcs[i].0 == k),
            forall|k: usize| #[trigger]
                r.succ().contains_key(k) ==> strictly_ascending(r.succ()[k]),
            forall|k: usize, v: usize|
                r.succ().contains_key(k) ==> (#[trigger] r.succ()[k].contains(v) <==> exists|i: int|
                    1 <= i < arcs.len() && arcs[i] == (k, v)),
    {
        let n = arcs[0].0;
        let mut list: HashMap<usize, Vec<usize>> = HashMap::new();
        let mut a: usize = 1;
        while a < arcs.len()
            invariant
                1 <= a <= arcs.len(),
                forall|k: usize|
                    #[trigger] list@.contains_key(k) <==> exists|i: int|
                        1 <= i < a && arcs[i].0 == k,
                forall|k: usize| #[trigger]
                    list@.contains_key(k) ==> strictly_ascending(list@[k]@),
                forall|k: usize, v: usize|
                    list@.contains_key(k) ==> (#[trigger] list@[k]@.contains(v) <==> exists|i: int|
                        1 <= i < a && arcs[i] == (k, v)),
            decreases arcs.len() - a,
        {
            let (from, to) = arcs[a];
            let ghost before = list@;
            let mut succ = match list.remove(&from) {
                Some(succ) => succ,
                None => Vec::new(),
            };
            proof {
                if !before.contains_key(from) {
                    assert forall|i: int| 1 <= i < a implies #[trigger] arcs[i].0 != from by {}
                }
            }
            insert_new_ascending(&mut succ, to);
            list.insert(from, succ);
            proof {
                assert forall|k: usize| #[trigger] list@.contains_key(k) <==> exists|i: int|
                    1 <= i < a + 1 && arcs[i].0 == k by {
                    if k == from {
                        assert(arcs[a as int].0 == k);
                    } else if exists|i: int| 1 <= i < a + 1 && arcs[i].0 == k {
                        let i = choose|i: int| 1 <= i < a + 1 && arcs[i].0 == k;
                        assert(i < a);
                    }
                }
                assert forall|k: usize, v: usize| list@.contains_key(k) implies (#[trigger] list@[
                    k]@.contains(v) <==> exists|i: int| 1 <= i < a + 1 && arcs[i] == (k, v)) by {
                    if exists|i: int| 1 <= i < a + 1 && arcs[i] == (k, v) {
                        let i = choose|i: int| 1 <= i < a + 1 && arcs[i] == (k, v);
                        if i < a {
                            assert(before.contains_key(k));
                        }
                    }
                    if k != from {
                        assert(list@[k] == before[k]);
                    }
                }
            }
            a = a + 1;
        }
        let mut v: usize = 0;
        while v < n
            invariant
                v <= n,
                arcs.len() >= 1,
                n == arcs[0].0,
                forall|k: usize|
                    #[trigger] list@.contains_key(k) <==> ((1 <= k <= v) || exists|i: int|
                        1 <= i < arcs.len() && arcs[i].0 == k),
                forall|k: usize| #[trigger]
                    list@.contains_key(k) ==> strictly_ascending(list@[k]@),
                forall|k: usize, w: usize|
                    list@.contains_key(k) ==> (#[trigger] list@[k]@.contains(w) <==> exists|i: int|
                        1 <= i < arcs.len() && arcs[i] == (k, w)),
            decreases n - v,
        {
            v = v + 1;
            if !list.contains_key(&v) {
                let ghost before = list@;
                list.insert(v, Vec::new());
                proof {
                    assert forall|i: int| 1 <= i < arcs.len() implies #[trigger] arcs[i].0 != v by {}
                    assert forall|k: usize, w: usize| list@.contains_key(k) implies (#[trigger] list@[
                        k]@.contains(w) <==> exists|i: int| 1 <= i < arcs.len() && arcs[i] == (k, w)) by {
                        if k != v {
                            assert(list@[k] == before[k]);
                        }
                    }
                }
            }
        }
        let r = Self { list };
        r
    }

    /// Number of vertices.
    pub fn vertex_count(&self) -> (r: usize)
        ensures
            r == self.succ().dom().len(),
    {
        assert(self.succ().dom() =~= self.list@.dom());
        self.list.len()
    }

    /// Returns the smallest successor of `node`, or `None` when it has none
    /// or is not a vertex.
    pub fn next(&self, node: usize) -> (r: Option<usize>)
        ensures
            !(self.succ().contains_key(node) && self.succ()[node].len() > 0) ==> r is None,
            self.succ().contains_key(node) && self.succ()[node].len() > 0 ==> (r matches Some(m)
                && self.succ()[node].contains(m) && forall|x: usize| #[trigger]
                self.succ()[node].contains(x) ==> m <= x),
    {
        match self.list.get(&node) {
            Some(succ) => {
                assert(self.succ()[node] == succ@);
                if succ.len() == 0 {
                    return None;
                }
                let mut m = succ[0];
                let mut i: usize = 1;
                while i < succ.len()
                    invariant
                        1 <= i <= succ@.len(),
                        succ@.contains(m),
                        forall|j: int| 0 <= j < i ==> m <= succ@[j],
                    decreases succ@.len() - i,
                {
                    if succ[i] < m {
                        m = succ[i];
                    }
                    i = i + 1;
                }
                assert forall|x: usize| #[trigger] succ@.contains(x) implies m <= x by {
                    let j = choose|j: int| 0 <= j < succ@.len() && succ@[j] == x;
                }
                Some(m)
            },
            None => None,
        }
    }

    /// Whether the graph has at least one arc.
    pub fn has_edges(&self) -> (r: bool)
        ensures
            r == exists|k: usize| #[trigger]
                self.succ().contains_key(k) && self.succ()[k].len() > 0,
    {
        let keys = key_list(&self.list);
        let mut i: usize = 0;
        while i < keys.len()
            invariant
                keys@.to_set() == self.list@.dom(),
                i <= keys.len(),
                forall|j: int| 0 <= j < i ==> self.list@[#[trigger] keys@[j]]@.len() == 0,
            decreases keys.len() - i,
        {
            let k = keys[i];
            assert(keys@.to_set().contains(k));
            let succ = self.list.get(&k).unwrap();
            if succ.len() > 0 {
                assert(self.succ().contains_key(k) && self.succ()[k].len() > 0);
                return true;
            }
            i = i + 1;
        }
        assert forall|k: usize| #[trigger]
            self.succ().contains_key(k) implies self.succ()[k].len() == 0 by {
            assert(keys@.to_set().contains(k));
            let j = choose|j: int| 0 <= j < keys@.len() && keys@[j] == k;
            assert(self.list@[keys@[j]]@.len() == 0);
        }
        false
    }

    /// Removes the arc `from -> to`; does nothing when either end is not a
    /// vertex or the arc is absent.
    pub fn remove_edge(&mut self, from: usize, to: usize)
        ensures
            final(self).succ() == if old(self).succ().contains_key(from) && old(
                self,
            ).succ().contains_key(to) && old(self).succ()[from].contains(to) {
                old(self).succ().insert(from, without(old(self).succ()[from], to))
            } else {
                old(self).succ()
            },
    {
        if !self.list.contains_key(&from) || !self.list.contains_key(&to) {
            return;
        }
        let succ = self.list.get(&from).unwrap();
        if !seq_contains(succ, to) {
            return;
        }
        let mut kept: Vec<usize> = Vec::new();
        let mut i: usize = 0;
        while i < succ.len()
            invariant
                i <= succ.len(),
                kept@ == without(succ@.subrange(0, i as int), to),
            decreases succ.len() - i,
        {
            assert(succ@.subrange(0, i + 1).drop_last() =~= succ@.subrange(0, i as int));
            if succ[i] != to {
                kept.push(succ[i]);
            }
            i = i + 1;
        }
        assert(succ@.subrange(0, succ@.len() as int) =~= succ@);
        self.list.insert(from, kept);
        assert(self.succ() =~= old(self).succ().insert(from, without(old(self).succ()[from], to)));
    }

    /// Returns the out-degree of `node` minus its in-degree, or `None` when
    /// `node` is not a vertex.
    pub fn deg(&self, node: usize) -> (r: Option<isize>)
        requires
            self.succ().dom().len() <= isize::MAX,
            forall|k: usize| #[trigger]
                self.succ().contains_key(k) ==> self.succ()[k].len() <= isize::MAX,
        ensures
            r == if self.succ().contains_key(node) {
                Some((self.succ()[node].len() - in_degree(self.succ(), node)) as isize)
            } else {
                None::<isize>
            },
    {
        match self.list.get(&node) {
            None => None,
            Some(succ) => {
                let keys = key_list(&self.list);
                let mut deg_in: usize = 0;
                let mut i: usize = 0;
                while i < keys.len()
                    invariant
                        keys@.to_set() == self.list@.dom(),
                        keys@.no_duplicates(),
                        i <= keys.len(),
                        deg_in == count_into(self.succ(), keys@.subrange(0, i as int), node),
                        deg_in <= i,
                    decreases keys.len() - i,
                {
                    let k = keys[i];
                    assert(keys@.to_set().contains(k));
                    assert(keys@.subrange(0, i + 1).drop_last() =~= keys@.subrange(0, i as int));
                    let s = self.list.get(&k).unwrap();
                    if seq_contains(s, node) {
                        deg_in = deg_in + 1;
                    }
                    i = i + 1;
                }
                assert(keys@.subrange(0, keys@.len() as int) =~= keys@);
                proof {
                    lemma_count_into(self.succ(), keys@, node);
                    keys@.unique_seq_to_set();
                    assert(self.succ().dom() =~= self.list@.dom());
                    assert(self.succ()[node] == succ@);
                }
                Some(succ.len() as isize - deg_in as isize)
            },
        }
    }

    /// Returns a copy of the successor map.
    pub fn list_mut(&self) -> (r: HashMap<usize, Vec<usize>>)
        ensures
            r@.map_values(|v: Vec<usize>| v@) == self.succ(),
    {
        let keys = key_list(&self.list);
        let mut out: HashMap<usize, Vec<usize>> = HashMap::new();
        let mut i: usize = 0;
        while i < keys.len()
            invariant
                keys@.to_set() == self.list@.dom(),
                keys@.no_duplicates(),
                i <= keys.len(),
                forall|k: usize| #[trigger]
                    out@.contains_key(k) <==> exists|j: int| 0 <= j < i && keys@[j] == k,
                forall|k: usize| #[trigger] out@.contains_key(k) ==> out@[k]@ == self.list@[k]@,
            decreases keys.len() - i,
        {
            let k = keys[i];
            assert(keys@.to_set().contains(k));
            let s = self.list.get(&k).unwrap();
            let mut copy: Vec<usize> = Vec::new();
            let mut j: usize = 0;
            while j < s.len()
                invariant
                    j <= s.len(),
                    copy@ == s@.subrange(0, j as int),
                decreases s.len() - j,
            {
                copy.push(s[j]);
                j = j + 1;
            }
            assert(copy@ =~= s@);
            out.insert(k, copy);
            i = i + 1;
        }
        assert forall|k: usize| #[trigger] out@.contains_key(k) <==> self.list@.contains_key(k) by {
            assert(keys@.to_set().contains(k) <==> keys@.contains(k));
        }
        assert(out@.map_values(|v: Vec<usize>| v@) =~= self.succ());
        out
    }

    /// Returns the successor map.
    pub fn list(&self) -> (r: &HashMap<usize, Vec<usize>>)
        ensures
            r@.map_values(|v: Vec<usize>| v@) == self.succ(),
    {
        &self.list
    }
}

/// `s` without any occurrence of `x`, order kept.
pub open spec fn without(s: Seq<usize>, x: usize) -> Seq<usize>
    decreases s.len(),
{
    if s.len() == 0 {
        s
    } else if s.last() == x {
        without(s.drop_last(), x)
    } else {
        without(s.drop_last(), x).push(s.last())
    }
}

/// Number of the keys in `ks` whose successors hold `node`.
pub open spec fn count_into(succ: Map<usize, Seq<usize>>, ks: Seq<usize>, node: usize) -> nat
    decreases ks.len(),
{
    if ks.len() == 0 {
        0
    } else {
        count_into(succ, ks.drop_last(), node) + if succ[ks.last()].contains(node) {
            1nat
        } else {
            0nat
        }
    }
}

/// Number of vertices with an arc into `node`.
pub open spec fn in_degree(succ: Map<usize, Seq<usize>>, node: usize) -> nat {
    succ.dom().filter(|k: usize| succ[k].contains(node)).len()
}

proof fn lemma_count_into(succ: Map<usize, Seq<usize>>, ks: Seq<usize>, node: usize)
    requires
        ks.no_duplicates(),
    ensures
        count_into(succ, ks, node) == ks.to_set().filter(|k: usize| succ[k].contains(node)).len(),
        ks.to_set().filter(|k: usize| succ[k].contains(node)).finite(),
    decreases ks.len(),
{
    let f = |k: usize| succ[k].contains(node);
    if ks.len() == 0 {
        assert(ks.to_set().filter(f) =~= Set::empty());
    } else {
        let init = ks.drop_last();
        assert(init.no_duplicates());
        lemma_count_into(succ, init, node);
        assert(ks =~= init.push(ks.last()));
        assert(ks.to_set() =~= init.to_set().insert(ks.last()));
        assert(!init.contains(ks.last()));
        assert(!init.to_set().contains(ks.last()));
        if f(ks.last()) {
            assert(ks.to_set().filter(f) =~= init.to_set().filter(f).insert(ks.last()));
        } else {
            assert(ks.to_set().filter(f) =~= init.to_set().filter(f));
        }
    }
}

/// `1..=n` is finite with `n` elements.
pub proof fn lemma_id_range(n: nat)
    requires
        n <= usize::MAX,
    ensures
        id_range(n as int).finite(),
        id_range(n as int).len() == n,
    decreases n,
{
    if n == 0 {
        assert(id_range(0) =~= Set::<usize>::empty());
    } else {
        lemma_id_range((n - 1) as nat);
        assert(id_range(n as int) =~= id_range(n - 1).insert(n as usize));
    }
}

impl Adjacency for AdjacencyMatrix {
    open spec fn valid(&self) -> bool {
        self.wf()
    }

    open spec fn vertex_set(&self) -> Set<usize> {
        self.vertices()
    }

    open spec fn step(&self, u: usize, v: usize) -> bool {
        self.vertices().contains(u) && self.entry(u, v)
    }

    proof fn lemma_step_leaves_vertex(&self, u: usize, v: usize) {
    }

    proof fn lemma_vertices_finite(&self) {
        if self.matrix.len() > 0 {
            lemma_id_range((self.matrix.len() - 1) as nat);
        } else {
            assert(self.nodes@ =~= Set::<usize>::empty());
        }
    }

    fn order(&self) -> (r: usize) {
        self.nodes.len()
    }

    fn free_successor(&self, u: usize, path: &Vec<usize>, floor: usize) -> (r: Option<usize>) {
        if !self.nodes.contains(&u) || floor == usize::MAX {
            return None;
        }
        let row = &self.matrix[u];
        let mut k: usize = floor + 1;
        while k < row.len()
            invariant
                self.wf(),
                self.nodes@.contains(u),
                u < self.matrix@.len(),
                row@ == self.matrix@[u as int]@,
                floor < k,
                forall|x: usize| #![trigger self.step(u, x)]
                    (floor < x < k) ==> !(self.step(u, x) && x != u && !path@.contains(x)),
            decreases row.len() - k,
        {
            if row[k] == 1 && k != u && !seq_contains(path, k) {
                assert(self.step(u, k));
                return Some(k);
            }
            k = k + 1;
        }
        None
    }

    fn closes(&self, u: usize, v: usize) -> (r: bool) {
        if !self.nodes.contains(&u) || !self.nodes.contains(&v) {
            return false;
        }
        self.matrix[u][v] == 1
    }
}

impl Adjacency for SuccessorsList {
    open spec fn valid(&self) -> bool {
        true
    }

    open spec fn vertex_set(&self) -> Set<usize> {
        self.succ().dom()
    }

    open spec fn step(&self, u: usize, v: usize) -> bool {
        self.succ().contains_key(u) && self.succ()[u].contains(v)
    }

    proof fn lemma_step_leaves_vertex(&self, u: usize, v: usize) {
    }

    proof fn lemma_vertices_finite(&self) {
        assert(self.succ().dom() =~= self.list@.dom());
    }

    fn order(&self) -> (r: usize) {
        self.vertex_count()
    }

    fn free_successor(&self, u: usize, path: &Vec<usize>, floor: usize) -> (r: Option<usize>) {
        let succ = match self.list.get(&u) {
            Some(succ) => succ,
            None => {
                return None;
            },
        };
        assert(self.succ()[u] == succ@);
        let mut best: Option<usize> = None;
        let mut i: usize = 0;
        while i < succ.len()
            invariant
                self.succ().contains_key(u),
                self.succ()[u] == succ@,
                i <= succ.len(),
                match best {
                    Some(w) => self.step(u, w) && w > floor && w != u && !path@.contains(w)
                        && forall|j: int|
                        0 <= j < i ==> (#[trigger] succ@[j] > floor && succ@[j] != u
                            && !path@.contains(succ@[j])) ==> w <= succ@[j],
                    None => forall|j: int|
                        0 <= j < i ==> !(#[trigger] succ@[j] > floor && succ@[j] != u
                            && !path@.contains(succ@[j])),
                },
            decreases succ.len() - i,
        {
            let x = succ[i];
            if x > floor && x != u && !seq_contains(path, x) {
                match best {
                    Some(w) => {
                        if x < w {
                            best = Some(x);
                        }
                    },
                    None => {
                        best = Some(x);
                    },
                }
            }
            i = i + 1;
        }
        best
    }

    fn closes(&self, u: usize, v: usize) -> (r: bool) {
        if !self.list.contains_key(&v) {
            return false;
        }
        match self.list.get(&u) {
            Some(succ) => seq_contains(succ, v),
            None => false,
        }
    }
}

} // verus!
