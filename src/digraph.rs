//! Directed graphs read from arc lists, in the representations used for
//! topological ordering: a signed adjacency matrix, a neighbourhood matrix,
//! a successors list and the graph matrix.

pub mod adjacency;
pub mod neighbourhood;
pub mod relation;
pub mod successors;

use crate::digraph::successors::mentions;
use crate::input::{arcs_of, parse_input};
use vstd::prelude::*;
use vstd::string::StringSliceAdditionalSpecFns;

verus! {

/// Entry `(u, v)` of the signed matrix of `data`: `1` for an arc `u -> v`,
/// `-1` for an arc `v -> u` alone, `0` otherwise.
pub open spec fn arc_sign(data: Seq<(usize, usize)>, u: usize, v: usize) -> i8 {
    if exists|i: int| 0 <= i < data.len() && data[i].0 == u && data[i].1 == v {
        1i8
    } else if exists|i: int| 0 <= i < data.len() && data[i].0 == v && data[i].1 == u {
        -1i8
    } else {
        0i8
    }
}

/// The signed `size x size` matrix of `data`.
pub fn signed_matrix(data: &[(usize, usize)], size: usize) -> (r: Vec<Vec<i8>>)
    requires
        forall|i: int| 0 <= i < data@.len() ==> #[trigger] data@[i].0 < size && data@[i].1 < size,
    ensures
        r@.len() == size,
        forall|u: int| 0 <= u < size ==> (#[trigger] r@[u])@.len() == size,
        forall|u: int, v: int|
            0 <= u < size && 0 <= v < size ==> r@[u]@[v] == arc_sign(data@, u as usize, v as usize),
{
    let mut matrix: Vec<Vec<i8>> = Vec::new();
    let mut i: usize = 0;
    while i < size
        invariant
            i <= size,
            matrix@.len() == i,
            forall|k: int| 0 <= k < i ==> (#[trigger] matrix@[k])@.len() == size,
            forall|k: int, j: int| 0 <= k < i && 0 <= j < size ==> matrix@[k]@[j] == 0i8,
        decreases size - i,
    {
        let mut row: Vec<i8> = Vec::new();
        let mut j: usize = 0;
        while j < size
            invariant
                j <= size,
                row@.len() == j,
                forall|k: int| 0 <= k < j ==> row@[k] == 0i8,
            decreases size - j,
        {
            row.push(0);
            j = j + 1;
        }
        matrix.push(row);
        i = i + 1;
    }
    let mut a: usize = 0;
    while a < data.len()
        invariant
            a <= data@.len(),
            forall|i: int| 0 <= i < data@.len() ==> #[trigger] data@[i].0 < size && data@[i].1 < size,
            matrix@.len() == size,
            forall|k: int| 0 <= k < size ==> (#[trigger] matrix@[k])@.len() == size,
            forall|u: int, v: int|
                0 <= u < size && 0 <= v < size ==> matrix@[u]@[v] == arc_sign(
                    data@.subrange(0, a as int),
                    u as usize,
                    v as usize,
                ),
        decreases data.len() - a,
    {
        let (from, to) = data[a];
        let ghost prev = data@.subrange(0, a as int);
        let ghost next = data@.subrange(0, a + 1);
        assert(next[a as int] == (from, to));
        matrix[from][to] = 1;
        if matrix[to][from] == 0 {
            matrix[to][from] = -1;
        }
        assert forall|u: int, v: int| 0 <= u < size && 0 <= v < size implies matrix@[u]@[v]
            == arc_sign(next, u as usize, v as usize) by {
            assert forall|i: int| 0 <= i < prev.len() implies next[i] == prev[i] by {}
            if exists|i: int| 0 <= i < prev.len() && prev[i].0 == u && prev[i].1 == v {
                let i = choose|i: int| 0 <= i < prev.len() && prev[i].0 == u && prev[i].1 == v;
                assert(next[i] == prev[i]);
            }
            if exists|i: int| 0 <= i < prev.len() && prev[i].0 == v && prev[i].1 == u {
                let i = choose|i: int| 0 <= i < prev.len() && prev[i].0 == v && prev[i].1 == u;
                assert(next[i] == prev[i]);
            }
            if exists|i: int| 0 <= i < next.len() && next[i].0 == u && next[i].1 == v {
                let i = choose|i: int| 0 <= i < next.len() && next[i].0 == u && next[i].1 == v;
                if i < prev.len() {
                    assert(prev[i] == next[i]);
                }
            }
            if exists|i: int| 0 <= i < next.len() && next[i].0 == v && next[i].1 == u {
                let i = choose|i: int| 0 <= i < next.len() && next[i].0 == v && next[i].1 == u;
                if i < prev.len() {
                    assert(prev[i] == next[i]);
                }
            }
        }
        a = a + 1;
    }
    assert(data@.subrange(0, data@.len() as int) =~= data@);
    matrix
}

/// A graph as an arc list, with its vertex and arc counts.
pub struct Graph {
    vertex_count: usize,
    arc_count: usize,
    arcs: Vec<(usize, usize)>,
}

impl Graph {
    /// The arcs.
    pub closed spec fn arc_seq(&self) -> Seq<(usize, usize)> {
        self.arcs@
    }

    /// The vertex count.
    pub closed spec fn spec_vertex_count(&self) -> usize {
        self.vertex_count
    }

    /// The arc count.
    pub closed spec fn spec_arc_count(&self) -> usize {
        self.arc_count
    }

    /// Creates an empty graph.
    pub fn new() -> (r: Self)
        ensures
            r.arc_seq() == Seq::<(usize, usize)>::empty(),
            r.spec_vertex_count() == 0,
            r.spec_arc_count() == 0,
    {
        Self { vertex_count: 0, arc_count: 0, arcs: Vec::new() }
    }

    /// Reads a graph from text: a header line, then one arc per line, as
    /// `parse_input` reads them. The vertices are the ends of the arcs.
    pub fn from(data: &str) -> (r: Self)
        requires
            arcs_of(data.spec_bytes()).len() >= 1,
        ensures
            r.arc_seq() == arcs_of(data.spec_bytes()).drop_first(),
            r.spec_arc_count() == r.arc_seq().len(),
            r.spec_vertex_count() == Set::new(|v: usize| mentions(r.arc_seq(), v)).len(),
    {
        let all = parse_input(data);
        let mut arcs: Vec<(usize, usize)> = Vec::new();
        let mut i: usize = 1;
        while i < all.len()
            invariant
                1 <= i <= all@.len(),
                arcs@ == all@.subrange(1, i as int),
            decreases all@.len() - i,
        {
            arcs.push(all[i]);
            i = i + 1;
        }
        proof {
            assert(arcs@ =~= all@.drop_first());
        }
        let mut seen: Vec<usize> = Vec::new();
        let mut k: usize = 0;
        while k < arcs.len()
            invariant
                k <= arcs@.len(),
                seen@.no_duplicates(),
                seen@.to_set() == Set::new(|v: usize| mentions(arcs@.subrange(0, k as int), v)),
            decreases arcs@.len() - k,
        {
            let (a, b) = arcs[k];
            let ghost prev = arcs@.subrange(0, k as int);
            let ghost next = arcs@.subrange(0, k + 1);
            proof {
                assert forall|v: usize| mentions(next, v) <==> (mentions(prev, v) || v == a || v
                    == b) by {
                    if mentions(prev, v) {
                        let j = choose|j: int| 0 <= j < prev.len() && (prev[j].0 == v || prev[j].1 == v);
                        assert(next[j] == prev[j]);
                    }
                    if mentions(next, v) {
                        let j = choose|j: int| 0 <= j < next.len() && (next[j].0 == v || next[j].1 == v);
                        if j < prev.len() {
                            assert(next[j] == prev[j]);
                        }
                    }
                    if v == a || v == b {
                        assert(next[k as int] == (a, b));
                    }
                }
            }
            let ghost before = seen@;
            if !crate::graph::seq_contains(&seen, a) {
                seen.push(a);
                proof {
                    assert(seen@ == before.push(a));
                    before.lemma_push_to_set_commute(a);
                    assert forall|x: int, y: int| 0 <= x < y < seen@.len() implies seen@[x] != seen@[y] by {
                        if y == seen@.len() - 1 {
                            assert(before.contains(seen@[x]));
                        }
                    }
                }
            }
            let ghost middle = seen@;
            if !crate::graph::seq_contains(&seen, b) {
                seen.push(b);
                proof {
                    assert(seen@ == middle.push(b));
                    middle.lemma_push_to_set_commute(b);
                    assert forall|x: int, y: int| 0 <= x < y < seen@.len() implies seen@[x] != seen@[y] by {
                        if y == seen@.len() - 1 {
                            assert(middle.contains(seen@[x]));
                        }
                    }
                }
            }
            proof {
                assert(seen@.to_set() =~= Set::new(|v: usize| mentions(next, v)));
            }
            k = k + 1;
        }
        proof {
            assert(arcs@.subrange(0, arcs@.len() as int) =~= arcs@);
            seen@.unique_seq_to_set();
        }
        let arc_count = arcs.len();
        Graph { vertex_count: seen.len(), arc_count, arcs }
    }

    /// Returns a copy of the arcs.
    pub fn arcs(&self) -> (r: Vec<(usize, usize)>)
        ensures
            r@ == self.arc_seq(),
    {
        let mut r: Vec<(usize, usize)> = Vec::new();
        let mut i: usize = 0;
        while i < self.arcs.len()
            invariant
                i <= self.arcs@.len(),
                r@ == self.arcs@.subrange(0, i as int),
            decreases self.arcs@.len() - i,
        {
            r.push(self.arcs[i]);
            i = i + 1;
        }
        assert(r@ =~= self.arcs@);
        r
    }

    /// Returns the vertex count.
    pub fn vertex_count(&self) -> (r: usize)
        ensures
            r == self.spec_vertex_count(),
    {
        self.vertex_count
    }

    /// Returns the arc count.
    pub fn arc_count(&self) -> (r: usize)
        ensures
            r == self.spec_arc_count(),
    {
        self.arc_count
    }
}

/// Graph matrix of a graph with vertices `1..=n`: `n + 1` rows of `n + 5`
/// entries. Row `r` records, for each of four relations of `r` (successors,
/// predecessors, two-way neighbours, unconnected vertices), the first
/// related vertex in one of the columns `n + 1..=n + 4`, and at each related
/// vertex the code of the next one (see `relation`).
pub struct Matrix {
    matrix: Vec<Vec<isize>>,
    vertex_count: usize,
    vertices: Vec<usize>,
}

/// A row of `len` zeros.
fn zeros(len: usize) -> (r: Vec<isize>)
    ensures
        r@ == Seq::new(len as nat, |j: int| 0isize),
{
    let mut row: Vec<isize> = Vec::new();
    let mut j: usize = 0;
    while j < len
        invariant
            j <= len,
            row@ == Seq::new(j as nat, |k: int| 0isize),
        decreases len - j,
    {
        row.push(0);
        j = j + 1;
        assert(row@ =~= Seq::new(j as nat, |k: int| 0isize));
    }
    row
}

impl Matrix {
    /// The rows of the matrix.
    pub closed spec fn rows(&self) -> Seq<Seq<isize>> {
        self.matrix.deep_view()
    }

    /// The vertex count.
    pub closed spec fn spec_vertex_count(&self) -> usize {
        self.vertex_count
    }

    /// The vertices.
    pub closed spec fn vertex_seq(&self) -> Seq<usize> {
        self.vertices@
    }

    /// Creates the graph matrix of the arcs `data` on the vertices
    /// `1..=vertex_count`.
    pub fn from(data: &[(usize, usize)], vertex_count: usize) -> (r: Self)
        requires
            3 * vertex_count + 2 <= isize::MAX,
            forall|i: int|
                0 <= i < data@.len() ==> 1 <= #[trigger] data@[i].0 <= vertex_count && 1
                    <= data@[i].1 <= vertex_count,
        ensures
            r.spec_vertex_count() == vertex_count,
            r.vertex_seq() == Seq::new(vertex_count as nat, |i: int| (i + 1) as usize),
            vertex_count == 0 ==> r.rows() == Seq::<Seq<isize>>::empty(),
            vertex_count > 0 ==> r.rows().len() == vertex_count + 1 && r.rows()[0] == Seq::new(
                (vertex_count + 5) as nat,
                |j: int| 0isize,
            ) && forall|k: int|
                1 <= k <= vertex_count ==> #[trigger] r.rows()[k] == relation::graph_row(
                    data@,
                    vertex_count as nat,
                    k as usize,
                ),
    {
        if vertex_count == 0 {
            let r = Matrix { matrix: Vec::new(), vertex_count: 0, vertices: Vec::new() };
            assert(r.rows() =~= Seq::<Seq<isize>>::empty());
            assert(r.vertex_seq() =~= Seq::new(0, |i: int| (i + 1) as usize));
            return r;
        }
        let n = vertex_count;
        let mut vertices: Vec<usize> = Vec::new();
        let mut v: usize = 0;
        while v < n
            invariant
                v <= n,
                vertices@ == Seq::new(v as nat, |i: int| (i + 1) as usize),
            decreases n - v,
        {
            v = v + 1;
            vertices.push(v);
            assert(vertices@ =~= Seq::new(v as nat, |i: int| (i + 1) as usize));
        }
        let width = n + 5;
        let mut matrix: Vec<Vec<isize>> = Vec::new();
        matrix.push(zeros(width));
        let mut k: usize = 0;
        while k < n
            invariant
                k <= n,
                width == n + 5,
                3 * n + 2 <= isize::MAX,
                matrix@.len() == k + 1,
                matrix@[0]@ == Seq::new(width as nat, |j: int| 0isize),
                forall|q: int| 1 <= q <= k ==> (#[trigger] matrix@[q])@ == relation::graph_row(
                    data@,
                    n as nat,
                    q as usize,
                ),
            decreases n - k,
        {
            k = k + 1;
            let mut row = zeros(width);
            relation::record(&mut row, relation::Relation::Successor, data, k, n);
            relation::record(&mut row, relation::Relation::Predecessor, data, k, n);
            relation::record(&mut row, relation::Relation::TwoWay, data, k, n);
            relation::record(&mut row, relation::Relation::Unconnected, data, k, n);
            matrix.push(row);
        }
        let r = Matrix { matrix, vertex_count, vertices };
        assert forall|q: int| 0 <= q <= n implies r.rows()[q] =~= r.matrix@[q]@ by {}
        r
    }

    /// Returns a copy of the matrix.
    pub fn matrix(&self) -> (r: Vec<Vec<isize>>)
        ensures
            r.deep_view() == self.rows(),
    {
        self.matrix.clone()
    }

    /// Returns the vertex count.
    pub fn vertex_count(&self) -> (r: usize)
        ensures
            r == self.spec_vertex_count(),
    {
        self.vertex_count
    }

    /// Returns a copy of the vertices.
    pub fn vertices(&self) -> (r: Vec<usize>)
        ensures
            r@ == self.vertex_seq(),
    {
        let mut r: Vec<usize> = Vec::new();
        let mut i: usize = 0;
        while i < self.vertices.len()
            invariant
                i <= self.vertices@.len(),
                r@ == self.vertices@.subrange(0, i as int),
            decreases self.vertices@.len() - i,
        {
            r.push(self.vertices[i]);
            i = i + 1;
        }
        assert(r@ =~= self.vertices@);
        r
    }
}

/// Visit state of a vertex during a depth-first search.
#[derive(Clone, Copy, Debug, PartialEq, Eq, Structural)]
pub enum Color {
    White,
    Grey,
    Black,
}

/// A vertex with its visit state. Two of them are equal, and ordered, by
/// their vertex alone.
#[derive(Clone, Copy, Debug)]
pub struct ColoredVertex {
    pub value: usize,
    pub color: Color,
}

impl PartialEq for ColoredVertex {
    fn eq(&self, other: &ColoredVertex) -> (r: bool) {
        self.value == other.value
    }
}

impl vstd::std_specs::cmp::PartialEqSpecImpl for ColoredVertex {
    open spec fn obeys_eq_spec() -> bool {
        true
    }

    open spec fn eq_spec(&self, other: &ColoredVertex) -> bool {
        self.value == other.value
    }
}

/// The order of two vertex ids.
pub open spec fn order_of(a: usize, b: usize) -> core::cmp::Ordering {
    if a < b {
        core::cmp::Ordering::Less
    } else if a == b {
        core::cmp::Ordering::Equal
    } else {
        core::cmp::Ordering::Greater
    }
}

impl PartialOrd for ColoredVertex {
    fn partial_cmp(&self, other: &ColoredVertex) -> (r: Option<core::cmp::Ordering>) {
        if self.value < other.value {
            Some(core::cmp::Ordering::Less)
        } else if self.value == other.value {
            Some(core::cmp::Ordering::Equal)
        } else {
            Some(core::cmp::Ordering::Greater)
        }
    }
}

impl vstd::std_specs::cmp::PartialOrdSpecImpl for ColoredVertex {
    open spec fn obeys_partial_cmp_spec() -> bool {
        true
    }

    open spec fn partial_cmp_spec(&self, other: &ColoredVertex) -> Option<core::cmp::Ordering> {
        Some(order_of(self.value, other.value))
    }
}

impl From<usize> for ColoredVertex {
    fn from(value: usize) -> (r: ColoredVertex) {
        ColoredVertex { value, color: Color::White }
    }
}

impl vstd::std_specs::convert::FromSpecImpl<usize> for ColoredVertex {
    open spec fn obeys_from_spec() -> bool {
        true
    }

    open spec fn from_spec(value: usize) -> ColoredVertex {
        ColoredVertex { value, color: Color::White }
    }
}

impl ColoredVertex {
    /// Sets the visit state.
    pub fn color(&mut self, color: Color)
        ensures
            final(self).value == old(self).value,
            final(self).color == color,
    {
        self.color = color;
    }
}

} // verus!
