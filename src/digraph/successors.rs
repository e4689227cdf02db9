//! A directed graph as a successors list.
use crate::digraph::{Color, ColoredVertex};
use crate::graph::{key_list, seq_contains};
use crate::topological::ArcSet;
use std::collections::HashMap;
use vstd::multiset::Multiset;
use vstd::prelude::*;

verus! {

broadcast use {vstd::std_specs::hash::group_hash_axioms, vstd::seq_lib::group_to_multiset_ensures};

/// `s` is in ascending order.
pub open spec fn ascending(s: Seq<usize>) -> bool {
    forall|i: int, j: int| 0 <= i < j < s.len() ==> s[i] <= s[j]
}

/// The targets of the arcs leaving `k`, counted with repetition.
pub open spec fn target_bag(data: Seq<(usize, usize)>, k: usize) -> Multiset<usize>
    decreases data.len(),
{
    if data.len() == 0 {
        Multiset::empty()
    } else if data.last().0 == k {
        target_bag(data.drop_last(), k).insert(data.last().1)
    } else {
        target_bag(data.drop_last(), k)
    }
}

/// `v` is an end of some arc of `data`.
pub open spec fn mentions(data: Seq<(usize, usize)>, v: usize) -> bool {
    exists|i: int| 0 <= i < data.len() && (data[i].0 == v || data[i].1 == v)
}

/// Inserts `x` into the ascending `s`, keeping it ascending.
fn insert_ascending(s: &mut Vec<usize>, x: usize)
    requires
        ascending(old(s)@),
    ensures
        ascending(final(s)@),
        final(s)@.to_multiset() == old(s)@.to_multiset().insert(x),
{
    let mut p: usize = 0;
    while p < s.len() && s[p] <= x
        invariant
            p <= s@.len(),
            forall|i: int| 0 <= i < p ==> s@[i] <= x,
        decreases s@.len() - p,
    {
        p = p + 1;
    }
    let ghost before = s@;
    s.insert(p, x);
    proof {
        assert(s@.remove(p as int) =~= before);
        assert(s@[p as int] == x);
        assert(s@.to_multiset().count(x) > 0);
        assert(before.to_multiset() =~= s@.to_multiset().remove(x));
        assert(s@.to_multiset() =~= before.to_multiset().insert(x));
        assert forall|i: int, j: int| 0 <= i < j < s@.len() implies s@[i] <= s@[j] by {
            if p < before.len() && j > p {
                assert(before[p as int] > x);
            }
        }
    }
}

/// Successors list: every vertex with its successors in ascending order.
pub struct List {
    list: HashMap<usize, Vec<usize>>,
}

impl List {
    /// The successors of each vertex.
    pub closed spec fn succ(&self) -> Map<usize, Seq<usize>> {
        self.list@.map_values(|v: Vec<usize>| v@)
    }

    /// Creates the successors list of an arc list. The vertices are the ends
    /// of the arcs; repeated arcs give repeated successors.
    pub fn from(data: &[(usize, usize)]) -> (r: Self)
        ensures
            forall|v: usize| #[trigger] r.succ().contains_key(v) <==> mentions(data@, v),
            forall|v: usize| #[trigger]
                r.succ().contains_key(v) ==> ascending(r.succ()[v]) && r.succ()[v].to_multiset()
                    == target_bag(data@, v),
    {
        let mut list: HashMap<usize, Vec<usize>> = HashMap::new();
        let mut i: usize = 0;
        while i < data.len()
            invariant
                i <= data@.len(),
                forall|v: usize| #[trigger]
                    list@.contains_key(v) <==> mentions(data@.subrange(0, i as int), v),
                forall|v: usize| #[trigger]
                    list@.contains_key(v) ==> ascending(list@[v]@) && list@[v]@.to_multiset()
                        == target_bag(data@.subrange(0, i as int), v),
            decreases data@.len() - i,
        {
            let (a, b) = data[i];
            let ghost prev = data@.subrange(0, i as int);
            let ghost next = data@.subrange(0, i + 1);
            assert(next.drop_last() =~= prev);
            assert(next.last() == (a, b));
            assert forall|v: usize| mentions(next, v) <==> (mentions(prev, v) || v == a || v
                == b) by {
                if mentions(prev, v) {
                    let k = choose|k: int| 0 <= k < prev.len() && (prev[k].0 == v || prev[k].1 == v);
                    assert(next[k] == prev[k]);
                }
                if mentions(next, v) {
                    let k = choose|k: int| 0 <= k < next.len() && (next[k].0 == v || next[k].1 == v);
                    if k < prev.len() {
                        assert(next[k] == prev[k]);
                    }
                }
                if v == a || v == b {
                    assert(next[i as int] == (a, b));
                }
            }
            let mut succ = match list.remove(&a) {
                Some(s) => s,
                None => {
                    assert(target_bag(prev, a) =~= Multiset::empty()) by {
                        lemma_bag_of_unmentioned(prev, a);
                    }
                    Vec::new()
                },
            };
            assert(succ@.to_multiset() == target_bag(prev, a));
            insert_ascending(&mut succ, b);
            list.insert(a, succ);
            if !list.contains_key(&b) {
                proof {
                    lemma_bag_of_unmentioned(prev, b);
                }
                list.insert(b, Vec::new());
                assert(list@[b]@.to_multiset() =~= Multiset::empty());
            }
            i = i + 1;
        }
        assert(data@.subrange(0, data@.len() as int) =~= data@);
        List { list }
    }

    /// Returns a copy of the successor map.
    pub fn list(&self) -> (r: HashMap<usize, Vec<usize>>)
        ensures
            r@.map_values(|v: Vec<usize>| v@) == self.succ(),
    {
        let keys = key_list(&self.list);
        let mut out: HashMap<usize, Vec<usize>> = HashMap::new();
        let mut i: usize = 0;
        while i < keys.len()
            invariant
                keys@.to_set() == self.list@.dom(),
                i <= keys.len(),
                forall|k: usize| #[trigger]
                    out@.contains_key(k) <==> exists|j: int| 0 <= j < i && keys@[j] == k,
                forall|k: usize| #[trigger] out@.contains_key(k) ==> out@[k]@ == self.list@[k]@,
            decreases keys.len() - i,
        {
            let k = keys[i];
            assert(keys@.to_set().contains(k));
            let s = self.list.get(&k).unwrap();
            let copy = crate::search::copy_of(s);
            out.insert(k, copy);
            i = i + 1;
        }
        assert forall|k: usize| #[trigger] out@.contains_key(k) <==> self.list@.contains_key(k) by {
            assert(keys@.to_set().contains(k) <==> keys@.contains(k));
        }
        assert(out@.map_values(|v: Vec<usize>| v@) =~= self.succ());
        out
    }
}

/// The successors list with every successor marked unvisited.
pub fn to_colored_vertex(list: &List) -> (r: HashMap<usize, Vec<ColoredVertex>>)
    ensures
        r@.dom() == list.succ().dom(),
        forall|k: usize| #[trigger]
            r@.contains_key(k) ==> r@[k]@.len() == list.succ()[k].len() && forall|i: int|
                0 <= i < r@[k]@.len() ==> r@[k]@[i] == (ColoredVertex {
                    value: list.succ()[k][i],
                    color: Color::White,
                }),
{
    let keys = key_list(&list.list);
    let mut out: HashMap<usize, Vec<ColoredVertex>> = HashMap::new();
    let mut i: usize = 0;
    while i < keys.len()
        invariant
            keys@.to_set() == list.list@.dom(),
            i <= keys.len(),
            forall|k: usize| #[trigger]
                out@.contains_key(k) <==> exists|j: int| 0 <= j < i && keys@[j] == k,
            forall|k: usize| #[trigger]
                out@.contains_key(k) ==> out@[k]@.len() == list.list@[k]@.len() && forall|j: int|
                    0 <= j < out@[k]@.len() ==> out@[k]@[j] == (ColoredVertex {
                        value: list.list@[k]@[j],
                        color: Color::White,
                    }),
        decreases keys.len() - i,
    {
        let k = keys[i];
        assert(keys@.to_set().contains(k));
        let s = list.list.get(&k).unwrap();
        let mut colored: Vec<ColoredVertex> = Vec::new();
        let mut j: usize = 0;
        while j < s.len()
            invariant
                j <= s.len(),
                colored@.len() == j,
                forall|t: int| 0 <= t < j ==> colored@[t] == (ColoredVertex {
                    value: s@[t],
                    color: Color::White,
                }),
            decreases s.len() - j,
        {
            colored.push(ColoredVertex { value: s[j], color: Color::White });
            j = j + 1;
        }
        out.insert(k, colored);
        i = i + 1;
    }
    assert forall|k: usize| out@.contains_key(k) <==> list.list@.contains_key(k) by {
        assert(keys@.to_set().contains(k) <==> keys@.contains(k));
    }
    assert(out@.dom() =~= list.succ().dom());
    out
}

impl ArcSet for List {
    open spec fn vertex_set(&self) -> Set<usize> {
        self.succ().dom()
    }

    open spec fn arc(&self, u: usize, v: usize) -> bool {
        self.succ().contains_key(u) && self.succ().contains_key(v) && self.succ()[u].contains(v)
    }

    fn vertex_list(&self) -> (r: Vec<usize>) {
        let r = key_list(&self.list);
        assert(self.succ().dom() =~= self.list@.dom());
        r
    }

    fn has_arc(&self, u: usize, v: usize) -> (r: bool) {
        if !self.list.contains_key(&v) {
            return false;
        }
        match self.list.get(&u) {
            Some(succ) => seq_contains(succ, v),
            None => false,
        }
    }
}

/// A vertex on no arc has no targets.
proof fn lemma_bag_of_unmentioned(data: Seq<(usize, usize)>, v: usize)
    requires
        !mentions(data, v),
    ensures
        target_bag(data, v) =~= Multiset::empty(),
    decreases data.len(),
{
    if data.len() > 0 {
        assert(!mentions(data.drop_last(), v)) by {
            if mentions(data.drop_last(), v) {
                let k = choose|k: int|
                    0 <= k < data.drop_last().len() && (data.drop_last()[k].0 == v
                        || data.drop_last()[k].1 == v);
                assert(data[k] == data.drop_last()[k]);
            }
        }
        assert(data.last().0 != v) by {
            if data.last().0 == v {
                assert(data[data.len() - 1].0 == v);
            }
        }
        lemma_bag_of_unmentioned(data.drop_last(), v);
    }
}

} // verus!
