//! Topological ordering by depth-first search: vertices are finished in
//! post-order, and the reverse of that order is the result.
use crate::topological::{is_topological, lemma_no_order, ArcSet};
use vstd::prelude::*;

verus! {

/// Visit states.
pub open spec fn white() -> u8 {
    0
}

/// Colors as the search keeps them: `stack` holds the grey positions, in
/// the order of a path of arcs; `finished` lists the black vertices in the
/// order they were finished, each after every target of its arcs.
pub open spec fn dfs_ok<G: ArcSet>(
    g: &G,
    vertices: Seq<usize>,
    color: Seq<u8>,
    stack: Seq<usize>,
    finished: Seq<usize>,
) -> bool {
    &&& color.len() == vertices.len()
    &&& forall|k: int| 0 <= k < color.len() ==> #[trigger] color[k] <= 2
    &&& stack.no_duplicates()
    &&& forall|i: int| 0 <= i < stack.len() ==> #[trigger] stack[i] < vertices.len()
    &&& forall|k: int| 0 <= k < vertices.len() ==> (#[trigger] color[k] == 1 <==> stack.contains(k as usize))
    &&& forall|i: int| 0 <= i < stack.len() - 1 ==> #[trigger] g.arc(vertices[stack[i] as int], vertices[stack[i + 1] as int])
    &&& finished.no_duplicates()
    &&& forall|k: int| 0 <= k < vertices.len() ==> (#[trigger] color[k] == 2 <==> finished.contains(vertices[k]))
    &&& forall|p: int| 0 <= p < finished.len() ==> vertices.contains(#[trigger] finished[p])
    &&& forall|p: int, v: usize|
        0 <= p < finished.len() && #[trigger] g.arc(finished[p], v) && g.vertex_set().contains(v)
            ==> exists|q: int| 0 <= q < p && finished[q] == v
}

/// Number of visit steps left: two for a white vertex, one for a grey one.
pub open spec fn steps_left(color: Seq<u8>, k: nat) -> nat
    decreases k,
{
    if k == 0 || k > color.len() {
        0
    } else {
        steps_left(color, (k - 1) as nat) + if color[k - 1] == 0 {
            2nat
        } else if color[k - 1] == 1 {
            1nat
        } else {
            0nat
        }
    }
}

proof fn lemma_steps_update(color: Seq<u8>, k: nat, at: int, c: u8)
    requires
        k <= color.len(),
        0 <= at < color.len(),
        c <= color[at] || (color[at] == 0 && c == 1) || (color[at] == 1 && c == 2),
    ensures
        at < k && color[at] == 0 && c == 1 ==> steps_left(color.update(at, c), k) + 1 == steps_left(color, k),
        at < k && color[at] == 1 && c == 2 ==> steps_left(color.update(at, c), k) + 1 == steps_left(color, k),
        at >= k ==> steps_left(color.update(at, c), k) == steps_left(color, k),
    decreases k,
{
    if k > 0 {
        lemma_steps_update(color, (k - 1) as nat, at, c);
    }
}

/// Position `m` holds a vertex of color `want` that `vertices[f]` has an
/// arc to.
pub open spec fn linked<G: ArcSet>(g: &G, vertices: Seq<usize>, color: Seq<u8>, want: u8, f: int, m: int) -> bool {
    color[m] == want && g.arc(vertices[f], vertices[m])
}

/// Position of the smallest vertex of color `want` that `vertices[f]` has
/// an arc to.
fn smallest_linked<G: ArcSet>(g: &G, vertices: &Vec<usize>, color: &Vec<u8>, want: u8, f: usize) -> (r: Option<usize>)
    requires
        color@.len() == vertices@.len(),
        f < vertices@.len(),
    ensures
        match r {
            Some(k) => k < vertices@.len() && linked(g, vertices@, color@, want, f as int, k as int)
                && forall|m: int| 0 <= m < vertices@.len() && #[trigger] linked(g, vertices@, color@, want, f as int, m) ==> vertices@[k as int] <= vertices@[m],
            None => forall|m: int| 0 <= m < vertices@.len() ==> !#[trigger] linked(g, vertices@, color@, want, f as int, m),
        },
{
    let mut best: Option<usize> = None;
    let mut m: usize = 0;
    while m < vertices.len()
        invariant
            color@.len() == vertices@.len(),
            m <= vertices@.len(),
            f < vertices@.len(),
            match best {
                Some(k) => k < m && linked(g, vertices@, color@, want, f as int, k as int)
                    && forall|x: int| 0 <= x < m && #[trigger] linked(g, vertices@, color@, want, f as int, x) ==> vertices@[k as int] <= vertices@[x],
                None => forall|x: int| 0 <= x < m ==> !#[trigger] linked(g, vertices@, color@, want, f as int, x),
            },
        decreases vertices@.len() - m,
    {
        if color[m] == want && g.has_arc(vertices[f], vertices[m]) {
            match best {
                Some(k) => {
                    if vertices[m] < vertices[k] {
                        best = Some(m);
                    }
                },
                None => {
                    best = Some(m);
                },
            }
        }
        m = m + 1;
    }
    best
}

/// Position of the smallest white vertex.
fn smallest_white(vertices: &Vec<usize>, color: &Vec<u8>) -> (r: Option<usize>)
    requires
        color@.len() == vertices@.len(),
    ensures
        match r {
            Some(k) => k < vertices@.len() && color@[k as int] == 0 && forall|m: int|
                0 <= m < vertices@.len() && #[trigger] color@[m] == 0 ==> vertices@[k as int] <= vertices@[m],
            None => forall|m: int| 0 <= m < vertices@.len() ==> #[trigger] color@[m] != 0,
        },
{
    let mut best: Option<usize> = None;
    let mut m: usize = 0;
    while m < vertices.len()
        invariant
            color@.len() == vertices@.len(),
            m <= vertices@.len(),
            match best {
                Some(k) => k < m && color@[k as int] == 0 && forall|x: int|
                    0 <= x < m && #[trigger] color@[x] == 0 ==> vertices@[k as int] <= vertices@[x],
                None => forall|x: int| 0 <= x < m ==> #[trigger] color@[x] != 0,
            },
        decreases vertices@.len() - m,
    {
        if color[m] == 0 {
            match best {
                Some(k) => {
                    if vertices[m] < vertices[k] {
                        best = Some(m);
                    }
                },
                None => {
                    best = Some(m);
                },
            }
        }
        m = m + 1;
    }
    best
}

/// The least value with property `p`, if any.
pub open spec fn least(p: spec_fn(usize) -> bool) -> Option<usize> {
    if exists|v: usize| #[trigger] p(v) {
        Some(choose|v: usize| #[trigger] p(v) && forall|w: usize| #[trigger] p(w) ==> v <= w)
    } else {
        None
    }
}

proof fn lemma_least(p: spec_fn(usize) -> bool, r: Option<usize>)
    requires
        match r {
            Some(v) => p(v) && forall|w: usize| #[trigger] p(w) ==> v <= w,
            None => forall|w: usize| !#[trigger] p(w),
        },
    ensures
        r == least(p),
{
    if let Some(v) = r {
        let c = choose|c: usize| #[trigger] p(c) && forall|w: usize| #[trigger] p(w) ==> c <= w;
        assert(c <= v && v <= c);
    }
}

/// `v` is a vertex neither on the path `path` nor finished.
pub open spec fn unvisited<G: ArcSet>(g: &G, path: Seq<usize>, done: Seq<usize>, v: usize) -> bool {
    g.vertex_set().contains(v) && !path.contains(v) && !done.contains(v)
}

/// A state of the search: its path and the vertices finished so far, or
/// the result.
pub enum Walk {
    Going(Seq<usize>, Seq<usize>),
    Over(Seq<usize>),
}

/// One move of the depth-first search. With an empty path it starts from
/// the least unvisited vertex, or ends with the finished vertices in
/// reverse. Otherwise an arc from the last vertex of the path back into the
/// path ends it with nothing; else it goes on to the least unvisited target,
/// or finishes the last vertex.
#[verifier::opaque]
pub open spec fn dfs_step<G: ArcSet>(g: &G, w: Walk) -> Walk {
    match w {
        Walk::Over(o) => Walk::Over(o),
        Walk::Going(path, done) => if path.len() == 0 {
            match least(|v: usize| unvisited(g, path, done, v)) {
                Some(v) => Walk::Going(seq![v], done),
                None => Walk::Over(done.reverse()),
            }
        } else {
            let top = path.last();
            if exists|v: usize| #[trigger] path.contains(v) && g.arc(top, v) {
                Walk::Over(Seq::empty())
            } else {
                match least(|v: usize| unvisited(g, path, done, v) && g.arc(top, v)) {
                    Some(v) => Walk::Going(path.push(v), done),
                    None => Walk::Going(path.drop_last(), done.push(top)),
                }
            }
        },
    }
}

/// The state after `n` moves.
pub open spec fn dfs_run<G: ArcSet>(g: &G, w: Walk, n: nat) -> Walk
    decreases n,
{
    if n == 0 {
        w
    } else {
        dfs_run(g, dfs_step(g, w), (n - 1) as nat)
    }
}

/// The depth-first search from nothing visited ends with `o`.
pub open spec fn dfs_ends<G: ArcSet>(g: &G, o: Seq<usize>) -> bool {
    exists|n: nat| dfs_run(g, Walk::Going(Seq::empty(), Seq::empty()), n) == Walk::Over(o)
}

proof fn lemma_dfs_run_step<G: ArcSet>(g: &G, w: Walk, n: nat)
    ensures
        dfs_run(g, w, n + 1) == dfs_step(g, dfs_run(g, w, n)),
    decreases n,
{
    assert(dfs_run(g, w, n + 1) == dfs_run(g, dfs_step(g, w), n));
    if n > 0 {
        lemma_dfs_run_step(g, dfs_step(g, w), (n - 1) as nat);
        assert(dfs_run(g, w, n) == dfs_run(g, dfs_step(g, w), (n - 1) as nat));
    }
}

/// The moves of `dfs_step`, one by one.
proof fn lemma_step_start<G: ArcSet>(g: &G, done: Seq<usize>, r: Option<usize>)
    requires
        r == least(|v: usize| unvisited(g, Seq::<usize>::empty(), done, v)),
    ensures
        dfs_step(g, Walk::Going(Seq::empty(), done)) == match r {
            Some(v) => Walk::Going(seq![v], done),
            None => Walk::Over(done.reverse()),
        },
{
    reveal(dfs_step);
}

proof fn lemma_step_back_arc<G: ArcSet>(g: &G, path: Seq<usize>, done: Seq<usize>, v: usize)
    requires
        path.len() > 0,
        path.contains(v),
        g.arc(path.last(), v),
    ensures
        dfs_step(g, Walk::Going(path, done)) == Walk::Over(Seq::<usize>::empty()),
{
    reveal(dfs_step);
}

proof fn lemma_step_on<G: ArcSet>(g: &G, path: Seq<usize>, done: Seq<usize>, r: Option<usize>)
    requires
        path.len() > 0,
        forall|v: usize| !(#[trigger] path.contains(v) && g.arc(path.last(), v)),
        r == least(|v: usize| unvisited(g, path, done, v) && g.arc(path.last(), v)),
    ensures
        dfs_step(g, Walk::Going(path, done)) == match r {
            Some(v) => Walk::Going(path.push(v), done),
            None => Walk::Going(path.drop_last(), done.push(path.last())),
        },
{
    reveal(dfs_step);
}

proof fn lemma_dfs_run_over<G: ArcSet>(g: &G, w: Walk, n: nat, k: nat)
    requires
        dfs_run(g, w, n) is Over,
    ensures
        dfs_run(g, w, n + k) == dfs_run(g, w, n),
    decreases k,
{
    if k > 0 {
        lemma_dfs_run_over(g, w, n, (k - 1) as nat);
        lemma_dfs_run_step(g, w, (n + k - 1) as nat);
        reveal(dfs_step);
    }
}

/// The depth-first search has one result.
pub proof fn lemma_dfs_ends_unique<G: ArcSet>(g: &G, o1: Seq<usize>, o2: Seq<usize>)
    requires
        dfs_ends(g, o1),
        dfs_ends(g, o2),
    ensures
        o1 == o2,
{
    let w = Walk::Going(Seq::empty(), Seq::empty());
    let n1 = choose|n: nat| dfs_run(g, w, n) == Walk::Over(o1);
    let n2 = choose|n: nat| dfs_run(g, w, n) == Walk::Over(o2);
    if n1 <= n2 {
        lemma_dfs_run_over(g, w, n1, (n2 - n1) as nat);
    } else {
        lemma_dfs_run_over(g, w, n2, (n1 - n2) as nat);
    }
}

/// The vertices at the positions on the stack.
pub open spec fn path_of(vertices: Seq<usize>, stack: Seq<usize>) -> Seq<usize> {
    stack.map_values(|p: usize| vertices[p as int])
}

proof fn lemma_white_iff<G: ArcSet>(
    g: &G,
    vertices: Seq<usize>,
    color: Seq<u8>,
    stack: Seq<usize>,
    finished: Seq<usize>,
    m: int,
)
    requires
        dfs_ok(g, vertices, color, stack, finished),
        vertices.no_duplicates(),
        vertices.to_set() == g.vertex_set(),
        vertices.len() <= usize::MAX,
        0 <= m < vertices.len(),
    ensures
        color[m] == 0 <==> unvisited(g, path_of(vertices, stack), finished, vertices[m]),
        color[m] == 1 <==> path_of(vertices, stack).contains(vertices[m]),
{
    let path = path_of(vertices, stack);
    assert(vertices.to_set().contains(vertices[m]));
    if path.contains(vertices[m]) {
        let t = choose|t: int| 0 <= t < path.len() && path[t] == vertices[m];
        assert(vertices[stack[t] as int] == vertices[m]);
        assert(stack[t] as int == m);
        assert(stack.contains(m as usize));
    }
    if stack.contains(m as usize) {
        let t = choose|t: int| 0 <= t < stack.len() && stack[t] == m as usize;
        assert(stack[t] as int == m);
        assert(path[t] == vertices[stack[t] as int]);
    }
}

/// Every vertex has a position.
proof fn lemma_position<G: ArcSet>(g: &G, vertices: Seq<usize>, v: usize) -> (m: int)
    requires
        vertices.to_set() == g.vertex_set(),
        g.vertex_set().contains(v),
    ensures
        0 <= m < vertices.len(),
        vertices[m] == v,
{
    assert(vertices.to_set().contains(v));
    choose|m: int| 0 <= m < vertices.len() && vertices[m] == v
}

/// The move from a nonempty path, told by what the searches for a grey
/// and for a white target of its last vertex found.
proof fn lemma_next_move<G: ArcSet>(
    g: &G,
    vertices: Seq<usize>,
    color: Seq<u8>,
    stack: Seq<usize>,
    finished: Seq<usize>,
    top: usize,
    white: Option<usize>,
)
    requires
        dfs_ok(g, vertices, color, stack, finished),
        vertices.no_duplicates(),
        vertices.to_set() == g.vertex_set(),
        vertices.len() <= usize::MAX,
        stack.len() > 0,
        top == stack.last(),
        forall|m: int| 0 <= m < vertices.len() ==> !#[trigger] linked(g, vertices, color, 1, top as int, m),
        match white {
            Some(k) => k < vertices.len() && linked(g, vertices, color, 0, top as int, k as int)
                && forall|m: int| 0 <= m < vertices.len() && #[trigger] linked(g, vertices, color, 0, top as int, m) ==> vertices[k as int] <= vertices[m],
            None => forall|m: int| 0 <= m < vertices.len() ==> !#[trigger] linked(g, vertices, color, 0, top as int, m),
        },
    ensures
        dfs_step(g, Walk::Going(path_of(vertices, stack), finished)) == match white {
            Some(k) => Walk::Going(path_of(vertices, stack).push(vertices[k as int]), finished),
            None => Walk::Going(path_of(vertices, stack).drop_last(), finished.push(vertices[top as int])),
        },
{
    let path = path_of(vertices, stack);
    let t = vertices[top as int];
    assert(path.last() == t);
    assert forall|v: usize| !(#[trigger] path.contains(v) && g.arc(path.last(), v)) by {
        if path.contains(v) && g.arc(t, v) {
            let q = choose|q: int| 0 <= q < path.len() && path[q] == v;
            let m = stack[q] as int;
            assert(vertices.to_set().contains(vertices[m]));
            lemma_white_iff(g, vertices, color, stack, finished, m);
            assert(linked(g, vertices, color, 1, top as int, m));
        }
    }
    let p = |v: usize| unvisited(g, path, finished, v) && g.arc(path.last(), v);
    let r = match white {
        Some(k) => Some(vertices[k as int]),
        None => None,
    };
    match white {
        Some(k) => {
            lemma_white_iff(g, vertices, color, stack, finished, k as int);
            assert forall|w: usize| #[trigger] p(w) implies vertices[k as int] <= w by {
                let m = lemma_position(g, vertices, w);
                lemma_white_iff(g, vertices, color, stack, finished, m);
                assert(linked(g, vertices, color, 0, top as int, m));
            }
        },
        None => {
            assert forall|w: usize| !#[trigger] p(w) by {
                if p(w) {
                    let m = lemma_position(g, vertices, w);
                    lemma_white_iff(g, vertices, color, stack, finished, m);
                    assert(linked(g, vertices, color, 0, top as int, m));
                }
            }
        },
    }
    lemma_least(p, r);
    lemma_step_on(g, path, finished, r);
}

/// The move from an empty path, told by the search for a white vertex.
proof fn lemma_restart<G: ArcSet>(
    g: &G,
    vertices: Seq<usize>,
    color: Seq<u8>,
    stack: Seq<usize>,
    finished: Seq<usize>,
    white: Option<usize>,
)
    requires
        dfs_ok(g, vertices, color, stack, finished),
        vertices.no_duplicates(),
        vertices.to_set() == g.vertex_set(),
        vertices.len() <= usize::MAX,
        stack.len() == 0,
        match white {
            Some(k) => k < vertices.len() && color[k as int] == 0 && forall|m: int|
                0 <= m < vertices.len() && #[trigger] color[m] == 0 ==> vertices[k as int] <= vertices[m],
            None => forall|m: int| 0 <= m < vertices.len() ==> #[trigger] color[m] != 0,
        },
    ensures
        dfs_step(g, Walk::Going(path_of(vertices, stack), finished)) == match white {
            Some(k) => Walk::Going(seq![vertices[k as int]], finished),
            None => Walk::Over(finished.reverse()),
        },
{
    let path = path_of(vertices, stack);
    assert(path =~= Seq::<usize>::empty());
    let p = |v: usize| unvisited(g, Seq::<usize>::empty(), finished, v);
    let r = match white {
        Some(k) => Some(vertices[k as int]),
        None => None,
    };
    match white {
        Some(k) => {
            lemma_white_iff(g, vertices, color, stack, finished, k as int);
            assert forall|w: usize| #[trigger] p(w) implies vertices[k as int] <= w by {
                let m = lemma_position(g, vertices, w);
                lemma_white_iff(g, vertices, color, stack, finished, m);
            }
        },
        None => {
            assert forall|w: usize| !#[trigger] p(w) by {
                if p(w) {
                    let m = lemma_position(g, vertices, w);
                    lemma_white_iff(g, vertices, color, stack, finished, m);
                }
            }
        },
    }
    lemma_least(p, r);
    lemma_step_start(g, finished, r);
}

/// `s` back to front.
fn reversed(s: &Vec<usize>) -> (r: Vec<usize>)
    ensures
        r@ == s@.reverse(),
{
    let mut r: Vec<usize> = Vec::new();
    let mut i: usize = s.len();
    while i > 0
        invariant
            i <= s@.len(),
            r@ == s@.subrange(i as int, s@.len() as int).reverse(),
        decreases i,
    {
        i = i - 1;
        r.push(s[i]);
        assert(r@ =~= s@.subrange(i as int, s@.len() as int).reverse());
    }
    assert(s@.subrange(0, s@.len() as int) =~= s@);
    r
}

/// Orders the vertices topologically by depth-first search, starting from
/// the smallest unvisited vertex and always going on to the smallest
/// unvisited target. Returns the reverse of the order in which vertices
/// were finished, or an empty vector when the graph has a cycle (or no
/// vertex).
#[verifier::rlimit(100)]
pub fn depth_first<G: ArcSet>(g: &G) -> (r: Vec<usize>)
    ensures
        r@.len() > 0 ==> is_topological(g, r@),
        r@.len() == 0 ==> g.vertex_set().len() == 0 || forall|order: Seq<usize>|
            !is_topological(g, order),
        dfs_ends(g, r@),
{
    let vertices = g.vertex_list();
    let ghost init = Walk::Going(Seq::empty(), Seq::empty());
    let ghost mut steps: nat = 0;
    let n = vertices.len();
    proof {
        vertices@.unique_seq_to_set();
    }
    if n == 0 {
        proof {
            let p = |v: usize| unvisited(g, Seq::<usize>::empty(), Seq::<usize>::empty(), v);
            assert forall|w: usize| !#[trigger] p(w) by {
                if g.vertex_set().contains(w) {
                    assert(vertices@.to_set().contains(w));
                }
            }
            lemma_least(p, None);
            lemma_step_start(g, Seq::<usize>::empty(), None);
            assert(Seq::<usize>::empty().reverse() =~= Seq::<usize>::empty());
            lemma_dfs_run_step(g, init, 0);
            assert(dfs_run(g, init, 1) == Walk::Over(Seq::<usize>::empty()));
        }
        return Vec::new();
    }
    let mut color: Vec<u8> = Vec::new();
    let mut i: usize = 0;
    while i < n
        invariant
            i <= n,
            color@.len() == i,
            forall|k: int| 0 <= k < i ==> color@[k] == 0,
        decreases n - i,
    {
        color.push(0);
        i = i + 1;
    }
    let mut stack: Vec<usize> = Vec::new();
    let mut finished: Vec<usize> = Vec::new();
    let first = smallest_white(&vertices, &color);
    let start = match first {
        Some(k) => k,
        None => {
            assert(color@[0] != 0);
            return Vec::new();
        },
    };
    proof {
        lemma_steps_update(color@, n as nat, start as int, 1);
    }
    proof {
        let p = |v: usize| unvisited(g, Seq::<usize>::empty(), Seq::<usize>::empty(), v);
        assert forall|w: usize| #[trigger] p(w) implies vertices@[start as int] <= w by {
            let m = lemma_position(g, vertices@, w);
            assert(color@[m] == 0);
        }
        assert(vertices@.to_set().contains(vertices@[start as int]));
        lemma_least(p, Some(vertices@[start as int]));
        lemma_step_start(g, Seq::<usize>::empty(), Some(vertices@[start as int]));
        lemma_dfs_run_step(g, init, 0);
        steps = 1;
    }
    color.set(start, 1);
    stack.push(start);
    proof {
        assert(path_of(vertices@, stack@) =~= seq![vertices@[start as int]]);
        assert forall|k: int| 0 <= k < n implies (#[trigger] color@[k] == 1 <==> stack@.contains(k as usize)) by {
            if k == start {
                assert(stack@[0] == start);
            }
        }
    }
    loop
        invariant
            n == vertices@.len(),
            vertices@.no_duplicates(),
            vertices@.to_set() == g.vertex_set(),
            stack@.len() > 0,
            dfs_ok(g, vertices@, color@, stack@, finished@),
            vertices@.len() <= usize::MAX,
            init == Walk::Going(Seq::empty(), Seq::empty()),
            dfs_run(g, init, steps) == Walk::Going(path_of(vertices@, stack@), finished@),
        decreases steps_left(color@, n as nat),
    {
        let top = stack[stack.len() - 1];
        let ghost st = stack@;
        let ghost col = color@;
        let ghost fin = finished@;
        let ghost path0 = path_of(vertices@, stack@);
        proof {
            lemma_dfs_run_step(g, init, steps);
            assert(path0.last() == vertices@[top as int]);
        }
        let grey = smallest_linked(g, &vertices, &color, 1, top);
        if grey.is_some() {
            proof {
                let k0 = choose|k: int| 0 <= k < n && #[trigger] linked(g, vertices@, color@, 1, top as int, k);
                lemma_white_iff(g, vertices@, color@, stack@, finished@, k0);
                assert(path0.contains(vertices@[k0]) && g.arc(path0.last(), vertices@[k0]));
                lemma_step_back_arc(g, path0, fin, vertices@[k0]);
                steps = steps + 1;
                assert(dfs_run(g, init, steps) == Walk::Over(Seq::<usize>::empty()));
                let k = choose|k: int| 0 <= k < n && #[trigger] linked(g, vertices@, color@, 1, top as int, k);
                assert(color@[k] == 1);
                assert(stack@.contains(k as usize));
                let j = choose|j: int| 0 <= j < stack@.len() && stack@[j] == k as usize;
                let rest = Set::new(|v: usize| exists|t: int| j <= t < stack@.len() && vertices@[stack@[t] as int] == v);
                assert(rest.subset_of(g.vertex_set())) by {
                    assert forall|v: usize| rest.contains(v) implies g.vertex_set().contains(v) by {
                        let t = choose|t: int| j <= t < stack@.len() && vertices@[stack@[t] as int] == v;
                        assert(vertices@.to_set().contains(vertices@[stack@[t] as int]));
                    }
                }
                assert(rest.contains(vertices@[stack@[j] as int]));
                assert forall|v: usize| #[trigger] rest.contains(v) implies exists|u: usize|
                    rest.contains(u) && g.arc(u, v) by {
                    let t = choose|t: int| j <= t < stack@.len() && vertices@[stack@[t] as int] == v;
                    if t == j {
                        assert(rest.contains(vertices@[top as int]));
                        assert(g.arc(vertices@[top as int], v));
                    } else {
                        assert(g.arc(vertices@[stack@[t - 1] as int], vertices@[stack@[t - 1 + 1] as int]));
                        assert(rest.contains(vertices@[stack@[t - 1] as int]));
                    }
                }
                assert forall|order: Seq<usize>| !is_topological(g, order) by {
                    lemma_no_order(g, rest, order);
                }
            }
            return Vec::new();
        }
        let white = smallest_linked(g, &vertices, &color, 0, top);
        proof {
            lemma_next_move(g, vertices@, color@, stack@, finished@, top, white);
        }
        match white {
            Some(k) => {
                proof {
                    lemma_steps_update(color@, n as nat, k as int, 1);
                    assert(!stack@.contains(k));
                }
                color.set(k, 1);
                stack.push(k);
                proof {
                    assert(path_of(vertices@, stack@) =~= path0.push(vertices@[k as int]));
                    steps = steps + 1;
                    assert forall|x: int| 0 <= x < n implies (#[trigger] color@[x] == 1 <==> stack@.contains(x as usize)) by {
                        if x == k {
                            assert(stack@[st.len() as int] == k);
                        } else {
                            if stack@.contains(x as usize) {
                                let q = choose|q: int| 0 <= q < stack@.len() && stack@[q] == x as usize;
                                assert(q < st.len());
                                assert(st[q] == x as usize);
                            }
                            if st.contains(x as usize) {
                                let q = choose|q: int| 0 <= q < st.len() && st[q] == x as usize;
                                assert(stack@[q] == x as usize);
                            }
                        }
                    }
                    assert forall|x: int, y: int| 0 <= x < y < stack@.len() implies stack@[x] != stack@[y] by {
                        if y == st.len() {
                            assert(st.contains(stack@[x]));
                        }
                    }
                    assert forall|t: int| 0 <= t < stack@.len() - 1 implies #[trigger] g.arc(vertices@[stack@[t] as int], vertices@[stack@[t + 1] as int]) by {
                        if t < st.len() - 1 {
                            assert(stack@[t] == st[t] && stack@[t + 1] == st[t + 1]);
                        } else {
                            assert(stack@[t] == top);
                        }
                    }
                    assert forall|x: int| 0 <= x < n implies (#[trigger] color@[x] == 2 <==> finished@.contains(vertices@[x])) by {
                        if x != k {
                            assert(color@[x] == col[x]);
                        } else {
                            assert(col[x] == 0);
                        }
                    }
                }
            },
            None => {
                let ghost stack_before_pop = stack@;
                let v = vertices[top];
                proof {
                    assert(col[top as int] == 1);
                    assert(!fin.contains(v));
                    lemma_steps_update(color@, n as nat, top as int, 2);
                }
                stack.pop();
                color.set(top, 2);
                finished.push(v);
                proof {
                    assert(path_of(vertices@, stack@) =~= path0.drop_last());
                    steps = steps + 1;
                    assert(stack@ =~= st.drop_last());
                    assert(st[st.len() - 1] == top);
                    assert forall|x: int| 0 <= x < n implies (#[trigger] color@[x] == 1 <==> stack@.contains(x as usize)) by {
                        if x == top {
                            if stack@.contains(x as usize) {
                                let q = choose|q: int| 0 <= q < stack@.len() && stack@[q] == x as usize;
                                assert(st[q] == st[st.len() - 1]);
                            }
                        } else {
                            if st.contains(x as usize) {
                                let q = choose|q: int| 0 <= q < st.len() && st[q] == x as usize;
                                assert(q != st.len() - 1);
                                assert(stack@[q] == x as usize);
                            }
                            if stack@.contains(x as usize) {
                                let q = choose|q: int| 0 <= q < stack@.len() && stack@[q] == x as usize;
                                assert(st[q] == x as usize);
                            }
                        }
                    }
                    assert forall|x: int| 0 <= x < n implies (#[trigger] color@[x] == 2 <==> finished@.contains(vertices@[x])) by {
                        if x == top {
                            assert(finished@[fin.len() as int] == v);
                        } else {
                            assert(vertices@[x] != v);
                            if finished@.contains(vertices@[x]) {
                                let q = choose|q: int| 0 <= q < finished@.len() && finished@[q] == vertices@[x];
                                assert(fin[q] == vertices@[x]);
                            }
                            if fin.contains(vertices@[x]) {
                                let q = choose|q: int| 0 <= q < fin.len() && fin[q] == vertices@[x];
                                assert(finished@[q] == vertices@[x]);
                            }
                        }
                    }
                    assert forall|x: int, y: int| 0 <= x < y < finished@.len() implies finished@[x] != finished@[y] by {
                        if y == fin.len() {
                            assert(fin.contains(finished@[x]));
                        }
                    }
                    assert forall|p: int| 0 <= p < finished@.len() implies vertices@.contains(#[trigger] finished@[p]) by {
                        if p == fin.len() {
                            assert(vertices@[top as int] == v);
                        } else {
                            assert(finished@[p] == fin[p]);
                        }
                    }
                    assert forall|p: int, w: usize|
                        0 <= p < finished@.len() && #[trigger] g.arc(finished@[p], w) && g.vertex_set().contains(w)
                        implies exists|q: int| 0 <= q < p && finished@[q] == w by {
                        if p == fin.len() {
                            assert(vertices@.to_set().contains(w));
                            let m = choose|m: int| 0 <= m < n && vertices@[m] == w;
                            assert(!linked(g, vertices@, col, 0, top as int, m));
                            assert(!linked(g, vertices@, col, 1, top as int, m));
                            assert(col[m] == 2);
                            assert(fin.contains(w));
                            let q = choose|q: int| 0 <= q < fin.len() && fin[q] == w;
                            assert(finished@[q] == w);
                        } else {
                            assert(finished@[p] == fin[p]);
                            let q = choose|q: int| 0 <= q < p && fin[q] == w;
                            assert(finished@[q] == w);
                        }
                    }
                }
                if stack.len() == 0 {
                    let restart = smallest_white(&vertices, &color);
                    proof {
                        lemma_dfs_run_step(g, init, steps);
                        lemma_restart(g, vertices@, color@, stack@, finished@, restart);
                        steps = steps + 1;
                    }
                    match restart {
                        None => {
                            let r = reversed(&finished);
                            proof {
                                assert(dfs_run(g, init, steps) == Walk::Over(r@));
                                assert forall|x: int| 0 <= x < n implies finished@.contains(#[trigger] vertices@[x]) by {
                                    assert(color@[x] != 0);
                                    if color@[x] == 1 {
                                        assert(stack@.contains(x as usize));
                                    }
                                }
                                assert(finished@.to_set() =~= g.vertex_set()) by {
                                    assert forall|w: usize| finished@.to_set().contains(w) <==> g.vertex_set().contains(w) by {
                                        if g.vertex_set().contains(w) {
                                            assert(vertices@.to_set().contains(w));
                                            let x = choose|x: int| 0 <= x < n && vertices@[x] == w;
                                            assert(finished@.contains(vertices@[x]));
                                        }
                                        if finished@.contains(w) {
                                            let p = choose|p: int| 0 <= p < finished@.len() && finished@[p] == w;
                                            assert(vertices@.contains(finished@[p]));
                                            assert(vertices@.to_set().contains(w));
                                        }
                                    }
                                }
                                let f = finished@;
                                assert(r@.to_set() =~= f.to_set()) by {
                                    assert forall|w: usize| r@.to_set().contains(w) <==> f.to_set().contains(w) by {
                                        if f.contains(w) {
                                            let p = choose|p: int| 0 <= p < f.len() && f[p] == w;
                                            assert(r@[f.len() - 1 - p] == w);
                                        }
                                        if r@.contains(w) {
                                            let p = choose|p: int| 0 <= p < r@.len() && r@[p] == w;
                                            assert(f[f.len() - 1 - p] == w);
                                        }
                                    }
                                }
                                assert forall|x: int, y: int| 0 <= x < y < r@.len() implies r@[x] != r@[y] by {
                                    assert(r@[x] == f[f.len() - 1 - x]);
                                    assert(r@[y] == f[f.len() - 1 - y]);
                                }
                                assert forall|x: int, y: int|
                                    0 <= x < r@.len() && 0 <= y < r@.len() && #[trigger] g.arc(r@[x], r@[y]) implies x < y by {
                                    let px = f.len() - 1 - x;
                                    let py = f.len() - 1 - y;
                                    assert(r@[x] == f[px]);
                                    assert(r@[y] == f[py]);
                                    assert(f.to_set().contains(f[py]));
                                    let q = choose|q: int| 0 <= q < px && f[q] == f[py];
                                    assert(q == py);
                                }
                            }
                            return r;
                        },
                        Some(k) => {
                            proof {
                                lemma_steps_update(color@, n as nat, k as int, 1);
                            }
                            let ghost col2 = color@;
                            color.set(k, 1);
                            stack.push(k);
                            proof {
                                assert(path_of(vertices@, stack@) =~= seq![vertices@[k as int]]);
                                assert forall|x: int| 0 <= x < n implies (#[trigger] color@[x] == 1 <==> stack@.contains(x as usize)) by {
                                    if x == k {
                                        assert(stack@[0] == k);
                                    } else {
                                        assert(color@[x] == col2[x]);
                                        if stack@.contains(x as usize) {
                                            let q = choose|q: int| 0 <= q < stack@.len() && stack@[q] == x as usize;
                                            assert(q == 0);
                                        }
                                    }
                                }
                                assert forall|x: int| 0 <= x < n implies (#[trigger] color@[x] == 2 <==> finished@.contains(vertices@[x])) by {
                                    if x != k {
                                        assert(color@[x] == col2[x]);
                                    }
                                }
                            }
                        },
                    }
                }
            },
        }
    }
}

} // verus!
