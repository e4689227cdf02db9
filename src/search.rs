//! Backtracking search for a Hamiltonian cycle from one start vertex.
//!
//! The search keeps a path (the committed `stack` and the `current`
//! frontier) and a `floor`: successors of the frontier at or below the floor
//! were tried already. It always extends with the smallest free successor
//! above the floor, and on a dead end steps back, raising the floor to the
//! abandoned vertex. `step_search` states one move of it exactly.
use crate::order::{
    base, digit, digits_ok, enc, lemma_count_bound, lemma_enc_bounds, lemma_enc_lex, power,
};
use vstd::prelude::*;

verus! {

/// What the search needs of a graph.
pub trait Adjacency {
    /// The representation is well formed.
    spec fn valid(&self) -> bool;

    /// The vertex set.
    spec fn vertex_set(&self) -> Set<usize>;

    /// Whether the search may move from `u` to `v`.
    spec fn step(&self, u: usize, v: usize) -> bool;

    /// A move starts at a vertex.
    proof fn lemma_step_leaves_vertex(&self, u: usize, v: usize)
        requires
            self.valid(),
            self.step(u, v),
        ensures
            self.vertex_set().contains(u),
    ;

    /// The vertex set is finite.
    proof fn lemma_vertices_finite(&self)
        requires
            self.valid(),
        ensures
            self.vertex_set().finite(),
    ;

    /// Number of vertices.
    fn order(&self) -> (r: usize)
        requires
            self.valid(),
        ensures
            r == self.vertex_set().len(),
    ;

    /// The smallest successor of `u` above `floor` that is neither `u` nor
    /// on `path`.
    fn free_successor(&self, u: usize, path: &Vec<usize>, floor: usize) -> (r: Option<usize>)
        requires
            self.valid(),
        ensures
            match r {
                Some(w) => self.step(u, w) && w > floor && w != u && !path@.contains(w) && forall|
                    x: usize,
                | #![trigger self.step(u, x)]
                    (self.step(u, x) && x > floor && x != u && !path@.contains(x)) ==> w <= x,
                None => forall|x: usize| #![trigger self.step(u, x)]
                    !(self.step(u, x) && x > floor && x != u && !path@.contains(x)),
            },
    ;

    /// Whether `u -> v` is an edge between two vertices.
    fn closes(&self, u: usize, v: usize) -> (r: bool)
        requires
            self.valid(),
        ensures
            r == (self.step(u, v) && self.vertex_set().contains(u) && self.vertex_set().contains(
                v,
            )),
    ;
}

/// `u -> v` is an edge between two vertices of `g`.
pub open spec fn is_edge<G: Adjacency>(g: &G, u: usize, v: usize) -> bool {
    g.step(u, v) && g.vertex_set().contains(u) && g.vertex_set().contains(v)
}

/// `c` visits every vertex of `g` once, each consecutive pair and the pair
/// from the last back to the first being an edge.
pub open spec fn is_hamiltonian_cycle<G: Adjacency>(g: &G, c: Seq<usize>) -> bool {
    &&& c.len() >= 1
    &&& c.len() == g.vertex_set().len()
    &&& c.no_duplicates()
    &&& forall|i: int| 0 <= i < c.len() ==> g.vertex_set().contains(#[trigger] c[i])
    &&& forall|i: int| 0 <= i < c.len() - 1 ==> #[trigger] is_edge(g, c[i], c[i + 1])
    &&& is_edge(g, c.last(), c[0])
}

/// `w` may extend the path `path ++ [u]` with everything up to `floor`
/// already tried.
pub open spec fn eligible<G: Adjacency>(
    g: &G,
    u: usize,
    path: Seq<usize>,
    floor: usize,
    w: usize,
) -> bool {
    g.step(u, w) && w > floor && w != u && !path.contains(w)
}

/// The smallest eligible successor, if any.
pub open spec fn candidate<G: Adjacency>(g: &G, u: usize, path: Seq<usize>, floor: usize) -> Option<
    usize,
> {
    if exists|w: usize| #[trigger] eligible(g, u, path, floor, w) {
        Some(
            choose|w: usize|
                #[trigger] eligible(g, u, path, floor, w) && forall|x: usize| #[trigger]
                    eligible(g, u, path, floor, x) ==> w <= x,
        )
    } else {
        None
    }
}

/// A state of the search: still going with its stack, frontier and floor,
/// or over with its outcome.
pub enum Search {
    Going(Seq<usize>, usize, usize),
    Over(Option<Seq<usize>>),
}

/// The state a search from `start` begins in.
pub open spec fn initial(start: usize) -> Search {
    Search::Going(Seq::empty(), start, 0)
}

/// One move of the search. A full-length path that closes and is not in
/// `found` is the outcome; one that closes but is in `found` is a dead end;
/// one that does not close ends the search without a cycle.
pub open spec fn step_search<G: Adjacency>(g: &G, found: Seq<Seq<usize>>, s: Search) -> Search {
    match s {
        Search::Over(o) => Search::Over(o),
        Search::Going(stack, current, floor) => match candidate(g, current, stack, floor) {
            Some(w) => Search::Going(stack.push(current), w, 0),
            None => {
                let full = stack.push(current);
                if stack.len() + 1 == g.vertex_set().len() && !is_edge(g, current, full[0]) {
                    Search::Over(None)
                } else if stack.len() + 1 == g.vertex_set().len() && !found.contains(full) {
                    Search::Over(Some(full))
                } else if stack.len() == 0 {
                    Search::Over(None)
                } else {
                    Search::Going(stack.drop_last(), stack.last(), current)
                }
            },
        },
    }
}

/// The state after `n` moves.
pub open spec fn run_search<G: Adjacency>(g: &G, found: Seq<Seq<usize>>, s: Search, n: nat) -> Search
    decreases n,
{
    if n == 0 {
        s
    } else {
        run_search(g, found, step_search(g, found, s), (n - 1) as nat)
    }
}

/// The search from `start`, avoiding the cycles in `found`, ends with
/// outcome `o`.
pub open spec fn search_ends<G: Adjacency>(
    g: &G,
    found: Seq<Seq<usize>>,
    start: usize,
    o: Option<Seq<usize>>,
) -> bool {
    exists|n: nat| run_search(g, found, initial(start), n) == Search::Over(o)
}

/// The view of an optional vector.
pub open spec fn opt_view(r: Option<Vec<usize>>) -> Option<Seq<usize>> {
    match r {
        Some(v) => Some(v@),
        None => None,
    }
}

proof fn lemma_run_step<G: Adjacency>(g: &G, found: Seq<Seq<usize>>, s: Search, n: nat)
    ensures
        run_search(g, found, s, n + 1) == step_search(g, found, run_search(g, found, s, n)),
    decreases n,
{
    assert(run_search(g, found, s, n + 1) == run_search(g, found, step_search(g, found, s), n));
    if n > 0 {
        lemma_run_step(g, found, step_search(g, found, s), (n - 1) as nat);
        assert(run_search(g, found, s, n) == run_search(
            g,
            found,
            step_search(g, found, s),
            (n - 1) as nat,
        ));
    }
}

/// Runs of one search that both end agree on the outcome.
pub proof fn lemma_search_ends_unique<G: Adjacency>(
    g: &G,
    found: Seq<Seq<usize>>,
    start: usize,
    o1: Option<Seq<usize>>,
    o2: Option<Seq<usize>>,
)
    requires
        search_ends(g, found, start, o1),
        search_ends(g, found, start, o2),
    ensures
        o1 == o2,
{
    let n1 = choose|n: nat| run_search(g, found, initial(start), n) == Search::Over(o1);
    let n2 = choose|n: nat| run_search(g, found, initial(start), n) == Search::Over(o2);
    if n1 <= n2 {
        lemma_run_over(g, found, initial(start), n1, (n2 - n1) as nat);
    } else {
        lemma_run_over(g, found, initial(start), n2, (n1 - n2) as nat);
    }
}

proof fn lemma_run_over<G: Adjacency>(g: &G, found: Seq<Seq<usize>>, s: Search, n: nat, k: nat)
    requires
        run_search(g, found, s, n) is Over,
    ensures
        run_search(g, found, s, n + k) == run_search(g, found, s, n),
    decreases k,
{
    if k > 0 {
        lemma_run_over(g, found, s, n, (k - 1) as nat);
        lemma_run_step(g, found, s, (n + k - 1) as nat);
    }
}

/// The path `stack ++ [current]` is a simple path from `start` along moves
/// of `g`, every vertex of it but the frontier a vertex of `g`.
pub open spec fn path_ok<G: Adjacency>(g: &G, start: usize, stack: Seq<usize>, current: usize) -> bool {
    &&& stack.push(current).no_duplicates()
    &&& stack.push(current)[0] == start
    &&& forall|i: int| 0 <= i < stack.len() ==> g.vertex_set().contains(#[trigger] stack[i])
    &&& forall|i: int|
        0 <= i < stack.len() ==> #[trigger] g.step(stack.push(current)[i], stack.push(current)[i + 1])
    &&& stack.len() <= g.vertex_set().len()
}

/// The digits that order the states of a search: the path past its start,
/// then one more than the floor.
pub open spec fn trail(stack: Seq<usize>, current: usize, floor: usize) -> Seq<int> {
    stack.push(current).drop_first().map_values(|v: usize| v as int).push(floor as int + 1)
}

/// What is left of the search's work; it falls with every move.
pub open spec fn remaining(stack: Seq<usize>, current: usize, floor: usize, size: nat) -> int {
    power(size + 1) - enc(trail(stack, current, floor), 0, size + 1)
}

proof fn lemma_trail_digits(stack: Seq<usize>, current: usize, floor: usize)
    ensures
        digits_ok(trail(stack, current, floor)),
        trail(stack, current, floor).len() == stack.len() + 1,
{
    let t = trail(stack, current, floor);
    assert forall|i: int| 0 <= i < t.len() implies 0 <= #[trigger] t[i] < base() by {}
}

/// The remaining work of a state is never negative.
proof fn lemma_remaining_nonneg(stack: Seq<usize>, current: usize, floor: usize, size: nat)
    requires
        stack.len() <= size,
    ensures
        remaining(stack, current, floor, size) >= 0,
{
    lemma_trail_digits(stack, current, floor);
    lemma_enc_bounds(trail(stack, current, floor), 0, size + 1);
}

/// Extending the path lowers the remaining work.
proof fn lemma_extend_decreases(stack: Seq<usize>, current: usize, floor: usize, w: usize, size: nat)
    requires
        w > floor,
        stack.len() + 1 <= size,
    ensures
        remaining(stack.push(current), w, 0, size) < remaining(stack, current, floor, size),
{
    let a = trail(stack, current, floor);
    let b = trail(stack.push(current), w, 0);
    lemma_trail_digits(stack, current, floor);
    lemma_trail_digits(stack.push(current), w, 0);
    let m = stack.len();
    assert forall|i: int| 0 <= i < m implies digit(a, i) == digit(b, i) by {
        assert(stack.push(current).push(w)[i + 1] == stack.push(current)[i + 1]);
    }
    assert(digit(b, m as int) == w as int);
    assert(digit(a, m as int) == floor as int + 1);
    if (w as int) > floor as int + 1 {
        lemma_enc_lex(a, b, 0, m, size + 1);
    } else {
        assert(digit(b, m + 1 as int) == 1);
        assert(digit(a, m + 1 as int) == 0);
        lemma_enc_lex(a, b, 0, m + 1, size + 1);
    }
}

/// Stepping back lowers the remaining work.
proof fn lemma_back_decreases(stack: Seq<usize>, current: usize, floor: usize, size: nat)
    requires
        stack.len() >= 1,
        stack.len() <= size,
    ensures
        remaining(stack.drop_last(), stack.last(), current, size) < remaining(
            stack,
            current,
            floor,
            size,
        ),
{
    let a = trail(stack, current, floor);
    let b = trail(stack.drop_last(), stack.last(), current);
    lemma_trail_digits(stack, current, floor);
    lemma_trail_digits(stack.drop_last(), stack.last(), current);
    let m = stack.len();
    assert(stack.drop_last().push(stack.last()) =~= stack);
    assert forall|i: int| 0 <= i < m - 1 implies digit(a, i) == digit(b, i) by {}
    assert(digit(b, m - 1) == current as int + 1);
    assert(digit(a, m - 1) == current as int);
    lemma_enc_lex(a, b, 0, (m - 1) as nat, size + 1);
}

/// A vertex can lengthen a simple path of vertices only while some vertex
/// is off it.
proof fn lemma_path_len<G: Adjacency>(g: &G, p: Seq<usize>)
    requires
        g.valid(),
        p.no_duplicates(),
        forall|i: int| 0 <= i < p.len() ==> g.vertex_set().contains(#[trigger] p[i]),
    ensures
        p.len() <= g.vertex_set().len(),
{
    g.lemma_vertices_finite();
    p.unique_seq_to_set();
    assert(p.to_set().subset_of(g.vertex_set()));
    vstd::set_lib::lemma_len_subset(p.to_set(), g.vertex_set());
}

/// The exec result of `free_successor` is the candidate of the search.
proof fn lemma_candidate<G: Adjacency>(
    g: &G,
    u: usize,
    path: Seq<usize>,
    floor: usize,
    r: Option<usize>,
)
    requires
        match r {
            Some(w) => g.step(u, w) && w > floor && w != u && !path.contains(w) && forall|x: usize|
                #![trigger g.step(u, x)]
                (g.step(u, x) && x > floor && x != u && !path.contains(x)) ==> w <= x,
            None => forall|x: usize| #![trigger g.step(u, x)]
                !(g.step(u, x) && x > floor && x != u && !path.contains(x)),
        },
    ensures
        r == candidate(g, u, path, floor),
{
    match r {
        Some(w) => {
            assert(eligible(g, u, path, floor, w));
            assert(forall|x: usize| #[trigger] eligible(g, u, path, floor, x) ==> w <= x);
            let c = choose|c: usize|
                #[trigger] eligible(g, u, path, floor, c) && forall|x: usize| #[trigger]
                    eligible(g, u, path, floor, x) ==> c <= x;
            assert(c <= w && w <= c);
        },
        None => {
            assert(forall|x: usize| !#[trigger] eligible(g, u, path, floor, x));
        },
    }
}

/// Searches for a Hamiltonian cycle that starts at `start` and is not in
/// `found`.
pub fn cycle_from<G: Adjacency>(graph: &G, start: usize, found: &Vec<Vec<usize>>) -> (r: Option<
    Vec<usize>,
>)
    requires
        graph.valid(),
    ensures
        search_ends(graph, found.deep_view(), start, opt_view(r)),
        r matches Some(c) ==> is_hamiltonian_cycle(graph, c@) && c@[0] == start
            && !found.deep_view().contains(c@),
{
    let size = graph.order();
    let ghost fv = found.deep_view();
    let ghost init = initial(start);
    let ghost mut n: nat = 0;
    let mut stack: Vec<usize> = Vec::new();
    let mut current: usize = start;
    let mut floor: usize = 0;
    proof {
        graph.lemma_vertices_finite();
    }
    loop
        invariant
            graph.valid(),
            size == graph.vertex_set().len(),
            fv == found.deep_view(),
            init == initial(start),
            run_search(graph, fv, init, n) == Search::Going(stack@, current, floor),
            path_ok(graph, start, stack@, current),
        decreases remaining(stack@, current, floor, size as nat),
    {
        let ghost s0 = Search::Going(stack@, current, floor);
        let ghost old_stack = stack@;
        let ghost old_current = current;
        let ghost old_floor = floor;
        proof {
            lemma_run_step(graph, fv, init, n);
            lemma_remaining_nonneg(stack@, current, floor, size as nat);
        }
        let next = graph.free_successor(current, &stack, floor);
        proof {
            lemma_candidate(graph, current, stack@, floor, next);
        }
        match next {
            Some(w) => {
                proof {
                    graph.lemma_step_leaves_vertex(current, w);
                    let p = stack@.push(current);
                    assert forall|i: int| 0 <= i < p.len() implies graph.vertex_set().contains(
                        #[trigger] p[i],
                    ) by {
                        if i < stack@.len() {
                            assert(graph.vertex_set().contains(stack@[i]));
                        }
                    }
                    lemma_path_len(graph, p);
                    lemma_extend_decreases(stack@, current, floor, w, size as nat);
                    assert(!p.contains(w));
                    assert(p.push(w)[0] == start);
                    assert forall|i: int| 0 <= i < p.len() implies #[trigger] graph.step(
                        p.push(w)[i],
                        p.push(w)[i + 1],
                    ) by {
                        if i < stack@.len() {
                            assert(p.push(w)[i] == p[i] && p.push(w)[i + 1] == p[i + 1]);
                        }
                    }
                }
                stack.push(current);
                current = w;
                floor = 0;
                assert(remaining(stack@, current, floor, size as nat) < remaining(
                    old_stack,
                    old_current,
                    old_floor,
                    size as nat,
                ));
            },
            None => {
                let first = if stack.len() == 0 {
                    current
                } else {
                    stack[0]
                };
                let full_length = stack.len() < size && stack.len() == size - 1;
                if full_length {
                    let closes = graph.closes(current, first);
                    if !closes {
                        proof {
                            assert(stack@.push(current)[0] == first);
                            assert(step_search(graph, fv, s0) == Search::Over(None));
                            n = n + 1;
                            assert(run_search(graph, fv, init, n) == Search::Over(None));
                            assert(run_search(graph, found.deep_view(), initial(start), n) == Search::Over(
                            None::<Seq<usize>>,
                        ));
                        }
                        return None;
                    }
                    stack.push(current);
                    let seen = holds(found, &stack);
                    if !seen {
                        proof {
                            assert(step_search(graph, fv, s0) == Search::Over(Some(stack@)));
                            n = n + 1;
                            assert(run_search(graph, fv, init, n) == Search::Over(Some(stack@)));
                            let c = stack@;
                            assert(c == old_stack.push(old_current));
                            assert forall|i: int| 0 <= i < c.len() implies graph.vertex_set().contains(
                                #[trigger] c[i],
                            ) by {
                                if i < old_stack.len() {
                                    assert(graph.vertex_set().contains(old_stack[i]));
                                }
                            }
                            assert forall|i: int| 0 <= i < c.len() - 1 implies #[trigger] is_edge(
                                graph,
                                c[i],
                                c[i + 1],
                            ) by {
                                assert(graph.step(c[i], c[i + 1]));
                                assert(graph.vertex_set().contains(c[i]));
                                assert(graph.vertex_set().contains(c[i + 1]));
                            }
                        }
                        return Some(stack);
                    }
                    stack.pop();
                    proof {
                        assert(stack@ =~= old_stack);
                    }
                }
                if stack.len() == 0 {
                    proof {
                        assert(step_search(graph, fv, s0) == Search::Over(None));
                        n = n + 1;
                        assert(run_search(graph, fv, init, n) == Search::Over(None));
                        assert(run_search(graph, found.deep_view(), initial(start), n) == Search::Over(
                            None::<Seq<usize>>,
                        ));
                    }
                    return None;
                }
                proof {
                    lemma_back_decreases(stack@, current, floor, size as nat);
                }
                floor = current;
                current = stack.pop().unwrap();
                proof {
                    let p = old_stack.push(old_current);
                    assert(stack@.push(current) =~= old_stack);
                    assert(stack@.push(current) =~= p.drop_last());
                    assert forall|i: int| 0 <= i < stack@.len() implies #[trigger] graph.step(
                        stack@.push(current)[i],
                        stack@.push(current)[i + 1],
                    ) by {
                        assert(graph.step(p[i], p[i + 1]));
                    }
                    assert(remaining(stack@, current, floor, size as nat) < remaining(
                        old_stack,
                        old_current,
                        old_floor,
                        size as nat,
                    ));
                }
            },
        }
        proof {
            n = n + 1;
            lemma_remaining_nonneg(stack@, current, floor, size as nat);
        }
    }
}

/// The outcome of the search from `start` avoiding `found`.
pub open spec fn outcome<G: Adjacency>(g: &G, found: Seq<Seq<usize>>, start: usize) -> Option<
    Seq<usize>,
> {
    choose|o: Option<Seq<usize>>| search_ends(g, found, start, o)
}

/// The cycles from `start` after `k` repeated searches, each one avoiding
/// the cycles found before it.
pub open spec fn found_after<G: Adjacency>(g: &G, start: usize, k: nat) -> Seq<Seq<usize>>
    decreases k,
{
    if k == 0 {
        Seq::empty()
    } else {
        let prev = found_after(g, start, (k - 1) as nat);
        match outcome(g, prev, start) {
            Some(c) => prev.push(c),
            None => prev,
        }
    }
}

/// `list` is what repeated searches from `start` find before one fails.
pub open spec fn enumerates<G: Adjacency>(g: &G, start: usize, list: Seq<Seq<usize>>) -> bool {
    list == found_after(g, start, list.len()) && search_ends(g, list, start, None)
}

/// Finds every Hamiltonian cycle from `start` that the search reaches:
/// searches again and again, each time avoiding the cycles found so far,
/// until a search fails.
pub fn cycles_from<G: Adjacency>(graph: &G, start: usize) -> (r: Vec<Vec<usize>>)
    requires
        graph.valid(),
    ensures
        enumerates(graph, start, r.deep_view()),
        r.deep_view().no_duplicates(),
        forall|i: int|
            0 <= i < r.len() ==> is_hamiltonian_cycle(graph, #[trigger] r.deep_view()[i])
                && r.deep_view()[i][0] == start,
{
    let ghost size = graph.vertex_set().len();
    let mut found: Vec<Vec<usize>> = Vec::new();
    proof {
        assert(found.deep_view() =~= found_after(graph, start, 0));
    }
    loop
        invariant
            graph.valid(),
            size == graph.vertex_set().len(),
            found.deep_view() == found_after(graph, start, found.len() as nat),
            found.deep_view().no_duplicates(),
            forall|i: int|
                0 <= i < found.len() ==> is_hamiltonian_cycle(graph, #[trigger] found.deep_view()[i])
                    && found.deep_view()[i][0] == start,
        decreases power(size) - found.len(),
    {
        let ghost before = found.deep_view();
        proof {
            lemma_count_bound(before, size);
        }
        match cycle_from(graph, start, &found) {
            Some(c) => {
                proof {
                    let o = outcome(graph, before, start);
                    lemma_search_ends_unique(graph, before, start, o, Some(c@));
                    assert(found_after(graph, start, (found.len() + 1) as nat) == before.push(c@));
                }
                let ghost old_found = found@;
                found.push(c);
                proof {
                    assert forall|i: int| 0 <= i < found.len() implies found.deep_view()[i]
                        =~= before.push(c@)[i] by {
                        if i < before.len() {
                            assert(found@[i] == old_found[i]);
                            assert(before[i] =~= old_found[i]@);
                        } else {
                            assert(found@[i]@ == c@);
                        }
                    }
                    assert(found.deep_view() =~= before.push(c@));
                    assert forall|i: int, j: int|
                        0 <= i < j < found.deep_view().len() implies found.deep_view()[i]
                        != found.deep_view()[j] by {
                        if j == before.len() {
                            assert(before.contains(before[i]));
                        }
                    }
                    assert forall|i: int| 0 <= i < found.deep_view().len() implies (#[trigger] found.deep_view()[i]).len() == size by {}
                    lemma_count_bound(found.deep_view(), size);
                }
            },
            None => {
                return found;
            },
        }
    }
}

/// The cycle of the first start in `v..=last` whose search succeeds.
pub open spec fn first_cycle<G: Adjacency>(g: &G, v: int, last: int) -> Option<Seq<usize>>
    decreases last - v + 1,
{
    if v > last || v < 0 || v > usize::MAX {
        None
    } else {
        match outcome(g, Seq::empty(), v as usize) {
            Some(c) => Some(c),
            None => first_cycle(g, v + 1, last),
        }
    }
}

/// The lists concatenated in order.
pub open spec fn concat(parts: Seq<Seq<Seq<usize>>>) -> Seq<Seq<usize>>
    decreases parts.len(),
{
    if parts.len() == 0 {
        Seq::empty()
    } else {
        concat(parts.drop_last()) + parts.last()
    }
}

/// `list` is, start after start over `1..=last`, what the repeated searches
/// from that start find.
pub open spec fn enumerates_all<G: Adjacency>(g: &G, last: int, list: Seq<Seq<usize>>) -> bool {
    exists|parts: Seq<Seq<Seq<usize>>>|
        parts.len() == last && list == concat(parts) && forall|i: int|
            0 <= i < last ==> #[trigger] enumerates(g, (i + 1) as usize, parts[i])
}

/// Tries the starts `1..=last` in turn and returns the first cycle found.
pub fn first_cycle_over<G: Adjacency>(graph: &G, last: usize) -> (r: Option<Vec<usize>>)
    requires
        graph.valid(),
    ensures
        opt_view(r) == first_cycle(graph, 1, last as int),
        r matches Some(c) ==> is_hamiltonian_cycle(graph, c@),
{
    let empty: Vec<Vec<usize>> = Vec::new();
    proof {
        assert(empty.deep_view() =~= Seq::<Seq<usize>>::empty());
    }
    let mut v: usize = 0;
    while v < last
        invariant
            graph.valid(),
            v <= last,
            empty.deep_view() == Seq::<Seq<usize>>::empty(),
            first_cycle(graph, 1, last as int) == first_cycle(graph, v + 1, last as int),
        decreases last - v,
    {
        v = v + 1;
        let found = cycle_from(graph, v, &empty);
        proof {
            let o = outcome(graph, Seq::empty(), v);
            lemma_search_ends_unique(graph, Seq::empty(), v, o, opt_view(found));
        }
        if found.is_some() {
            return found;
        }
    }
    None
}

/// Runs the repeated searches of every start in `1..=last` and gathers the
/// cycles.
pub fn all_cycles_over<G: Adjacency>(graph: &G, last: usize) -> (r: Vec<Vec<usize>>)
    requires
        graph.valid(),
    ensures
        enumerates_all(graph, last as int, r.deep_view()),
        r.deep_view().no_duplicates(),
        forall|i: int| 0 <= i < r.len() ==> is_hamiltonian_cycle(graph, #[trigger] r.deep_view()[i]),
{
    let mut all: Vec<Vec<usize>> = Vec::new();
    let ghost mut parts: Seq<Seq<Seq<usize>>> = Seq::empty();
    proof {
        assert(all.deep_view() =~= concat(parts));
    }
    let mut v: usize = 0;
    while v < last
        invariant
            graph.valid(),
            v <= last,
            parts.len() == v,
            all.deep_view() == concat(parts),
            forall|i: int| 0 <= i < v ==> #[trigger] enumerates(graph, (i + 1) as usize, parts[i]),
            all.deep_view().no_duplicates(),
            forall|i: int|
                0 <= i < all.len() ==> is_hamiltonian_cycle(graph, #[trigger] all.deep_view()[i])
                    && 1 <= all.deep_view()[i][0] <= v,
        decreases last - v,
    {
        v = v + 1;
        let mine = cycles_from(graph, v);
        let ghost before = all.deep_view();
        let ghost part = mine.deep_view();
        let mut k: usize = 0;
        while k < mine.len()
            invariant
                graph.valid(),
                1 <= v <= last,
                k <= mine.len(),
                part == mine.deep_view(),
                part.no_duplicates(),
                forall|i: int|
                    0 <= i < part.len() ==> is_hamiltonian_cycle(graph, #[trigger] part[i])
                        && part[i][0] == v,
                before.no_duplicates(),
                forall|i: int|
                    0 <= i < before.len() ==> is_hamiltonian_cycle(graph, #[trigger] before[i])
                        && 1 <= before[i][0] < v,
                all.deep_view() == before + part.subrange(0, k as int),
            decreases mine.len() - k,
        {
            let ghost prev = all@;
            let ghost prev_deep = all.deep_view();
            let c = copy_of(&mine[k]);
            all.push(c);
            proof {
                assert(part.len() == mine@.len());
                assert(prev_deep.len() == prev.len());
                assert(all.deep_view().len() == all@.len());
                assert(all@.len() == before.len() + k + 1);
                assert(part[k as int] =~= mine@[k as int]@);
                assert forall|i: int| 0 <= i < all.len() implies all.deep_view()[i] =~= (before
                    + part.subrange(0, k + 1))[i] by {
                    if i < all.len() - 1 {
                        assert(all@[i] == prev[i]);
                        assert(all.deep_view()[i] =~= prev_deep[i]);
                        assert(prev_deep[i] == (before + part.subrange(0, k as int))[i]);
                    } else {
                        assert(all@[i] == c);
                        assert((before + part.subrange(0, k + 1))[i] == part[k as int]);
                    }
                }
                assert(all.deep_view() =~= before + part.subrange(0, k + 1));
            }
            k = k + 1;
        }
        proof {
            assert(part.subrange(0, part.len() as int) =~= part);
            let next = all.deep_view();
            assert forall|i: int, j: int| 0 <= i < j < next.len() implies next[i] != next[j] by {
                if j >= before.len() && i < before.len() {
                    assert(next[i][0] < v);
                    assert(next[j] == part[j - before.len()]);
                }
                if i >= before.len() {
                    assert(next[i] == part[i - before.len()]);
                    assert(next[j] == part[j - before.len()]);
                }
            }
            assert forall|i: int| 0 <= i < next.len() implies is_hamiltonian_cycle(
                graph,
                #[trigger] next[i],
            ) && 1 <= next[i][0] <= v by {
                if i >= before.len() {
                    assert(next[i] == part[i - before.len()]);
                }
            }
            let old_parts = parts;
            parts = parts.push(part);
            assert(parts.drop_last() =~= old_parts);
            assert forall|i: int| 0 <= i < v implies #[trigger] enumerates(
                graph,
                (i + 1) as usize,
                parts[i],
            ) by {
                if i < v - 1 {
                    assert(parts[i] == old_parts[i]);
                }
            }
        }
    }
    proof {
        assert(enumerates_all(graph, last as int, all.deep_view()) == (exists|
            ps: Seq<Seq<Seq<usize>>>,
        |
            ps.len() == last && all.deep_view() == concat(ps) && forall|i: int|
                0 <= i < last ==> #[trigger] enumerates(graph, (i + 1) as usize, ps[i])));
    }
    all
}

/// A copy of `s`.
pub fn copy_of(s: &Vec<usize>) -> (r: Vec<usize>)
    ensures
        r@ == s@,
{
    let mut r: Vec<usize> = Vec::new();
    let mut i: usize = 0;
    while i < s.len()
        invariant
            i <= s.len(),
            r@ == s@.subrange(0, i as int),
        decreases s.len() - i,
    {
        r.push(s[i]);
        i = i + 1;
    }
    assert(r@ =~= s@);
    r
}

/// `found` holds `s`.
fn holds(found: &Vec<Vec<usize>>, s: &Vec<usize>) -> (r: bool)
    ensures
        r == found.deep_view().contains(s@),
{
    let mut i: usize = 0;
    while i < found.len()
        invariant
            i <= found.len(),
            forall|j: int| 0 <= j < i ==> found.deep_view()[j] != s@,
        decreases found.len() - i,
    {
        assert(found.deep_view()[i as int] =~= found@[i as int]@);
        if same(&found[i], s) {
            assert(found.deep_view()[i as int] == s@);
            return true;
        }
        i = i + 1;
    }
    false
}

/// `a` and `b` hold the same elements in the same order.
pub fn same(a: &Vec<usize>, b: &Vec<usize>) -> (r: bool)
    ensures
        r == (a@ == b@),
{
    if a.len() != b.len() {
        return false;
    }
    let mut i: usize = 0;
    while i < a.len()
        invariant
            a.len() == b.len(),
            i <= a.len(),
            forall|j: int| 0 <= j < i ==> a@[j] == b@[j],
        decreases a.len() - i,
    {
        if a[i] != b[i] {
            return false;
        }
        i = i + 1;
    }
    assert(a@ =~= b@);
    true
}

} // verus!
