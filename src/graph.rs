//! The frame's stage graph: stages with "runs before" edges (clear before
//! capture, capture before resolve) and a scheduler that orders them.
use vstd::prelude::*;

verus! {

/// A dependency: stage `.0` must finish before stage `.1` begins.
pub type Edge = (usize, usize);

/// `order` runs every one of `n` stages exactly once.
pub open spec fn is_permutation(order: Seq<usize>, n: nat) -> bool {
    &&& order.len() == n
    &&& forall|i: int| 0 <= i < order.len() ==> #[trigger] order[i] < n
    &&& forall|i: int, j: int| 0 <= i < j < order.len() ==> order[i] != order[j]
}

/// `order` runs each edge's first stage before its second.
pub open spec fn respects(order: Seq<usize>, edges: Seq<Edge>) -> bool {
    forall|k: int, i: int, j: int|
        #![trigger edges[k], order[i], order[j]]
        0 <= k < edges.len() && 0 <= i < order.len() && 0 <= j < order.len() && order[i]
            == edges[k].0 && order[j] == edges[k].1 ==> i < j
}

pub open spec fn valid_order(order: Seq<usize>, n: nat, edges: Seq<Edge>) -> bool {
    is_permutation(order, n) && respects(order, edges)
}

/// A set of stages each of which waits on an edge from another stage of the set.
pub open spec fn blocked(stuck: Seq<bool>, edges: Seq<Edge>) -> bool {
    forall|v: int|
        0 <= v < stuck.len() && #[trigger] stuck[v] ==> exists|k: int|
            0 <= k < edges.len() && edges[k].1 == v && edges[k].0 < stuck.len() && #[trigger] stuck[
                edges[k].0 as int]
}

/// No order of all stages respects the edges when some non-empty set of
/// stages is blocked on itself.
pub proof fn lemma_blocked_no_order(stuck: Seq<bool>, edges: Seq<Edge>, order: Seq<usize>, w: int)
    requires
        blocked(stuck, edges),
        0 <= w < stuck.len(),
        stuck[w],
    ensures
        !valid_order(order, stuck.len(), edges),
{
    let n = stuck.len();
    if valid_order(order, n, edges) {
        lemma_prefix_outside(stuck, edges, order, n as int);
        lemma_position_of(order, n, w as usize);
        let pw = choose|p: int| 0 <= p < order.len() && order[p] == w as usize;
        assert(!stuck[order[pw] as int]);
    }
}

/// In an order that respects the edges, the first `i` positions hold no
/// stage of a set blocked on itself.
proof fn lemma_prefix_outside(stuck: Seq<bool>, edges: Seq<Edge>, order: Seq<usize>, i: int)
    requires
        blocked(stuck, edges),
        valid_order(order, stuck.len(), edges),
        0 <= i <= stuck.len(),
    ensures
        forall|p: int| 0 <= p < i ==> !stuck[#[trigger] order[p] as int],
    decreases i,
{
    let n = stuck.len();
    if i > 0 {
        lemma_prefix_outside(stuck, edges, order, i - 1);
        let v = order[i - 1] as int;
        if stuck[v] {
            let k = choose|k: int|
                0 <= k < edges.len() && edges[k].1 == v && edges[k].0 < stuck.len()
                    && #[trigger] stuck[edges[k].0 as int];
            let a = edges[k].0;
            // `a` runs somewhere, before `v`, where only stages outside the set run
            lemma_position_of(order, n, a);
            let pa = choose|p: int| 0 <= p < order.len() && order[p] == a;
            assert(pa < i - 1);
            assert(!stuck[order[pa] as int]);
        }
    }
}

proof fn lemma_position_of(order: Seq<usize>, n: nat, v: usize)
    requires
        is_permutation(order, n),
        v < n,
    ensures
        exists|p: int| 0 <= p < order.len() && order[p] == v,
{
    let vals = order.map_values(|x: usize| x as int);
    assert forall|i: int, j: int| 0 <= i < vals.len() && 0 <= j < vals.len() && i != j implies vals[i] != vals[j] by {
        if i < j {
            assert(order[i] != order[j]);
        } else {
            assert(order[j] != order[i]);
        }
    }
    lemma_distinct_values_cover(vals, n as int);
    assert(vals.to_set().contains(v as int));
    let p = choose|p: int| 0 <= p < vals.len() && vals[p] == v as int;
    assert(order[p] == v);
}

/// `n` distinct integers in `0 .. n` are all of them.
proof fn lemma_distinct_values_cover(vals: Seq<int>, n: int)
    requires
        vals.len() == n,
        forall|i: int| 0 <= i < vals.len() ==> 0 <= #[trigger] vals[i] < n,
        vals.no_duplicates(),
    ensures
        vals.to_set() == vstd::set_lib::set_int_range(0, n),
{
    let s = vals.to_set();
    let r = vstd::set_lib::set_int_range(0, n);
    vals.unique_seq_to_set();
    vstd::set_lib::lemma_int_range(0, n);
    assert(s.subset_of(r));
    vstd::set_lib::lemma_len_subset(s, r);
    vstd::set_lib::lemma_subset_equality(s, r);
}

/// Fewer than `n` distinct integers in `0 .. n` leave one out.
proof fn lemma_distinct_values_miss(vals: Seq<int>, n: int) -> (w: int)
    requires
        vals.len() < n,
        forall|i: int| 0 <= i < vals.len() ==> 0 <= #[trigger] vals[i] < n,
        vals.no_duplicates(),
    ensures
        0 <= w < n,
        !vals.contains(w),
{
    let s = vals.to_set();
    let r = vstd::set_lib::set_int_range(0, n);
    vals.unique_seq_to_set();
    vstd::set_lib::lemma_int_range(0, n);
    if r.subset_of(s) {
        assert(s.subset_of(r));
        vstd::set_lib::lemma_len_subset(s, r);
        vstd::set_lib::lemma_len_subset(r, s);
        assert(false);
    }
    let w = choose|w: int| r.contains(w) && !s.contains(w);
    w
}

/// Stages `0 .. n` and the edges between them.
pub struct RenderGraph {
    stages: usize,
    edges: Vec<Edge>,
}

impl RenderGraph {
    pub closed spec fn spec_stages(&self) -> nat {
        self.stages as nat
    }

    pub closed spec fn spec_edges(&self) -> Seq<Edge> {
        self.edges@
    }

    /// Every edge joins two existing stages.
    pub open spec fn wf(&self) -> bool {
        forall|k: int|
            0 <= k < self.spec_edges().len() ==> (#[trigger] self.spec_edges()[k]).0
                < self.spec_stages() && self.spec_edges()[k].1 < self.spec_stages()
    }

    /// A graph of `stages` stages and no edges.
    pub fn new(stages: usize) -> (r: RenderGraph)
        ensures
            r.wf(),
            r.spec_stages() == stages,
            r.spec_edges() == Seq::<Edge>::empty(),
    {
        RenderGraph { stages, edges: Vec::new() }
    }

    pub fn stage_count(&self) -> (r: usize)
        ensures
            r as nat == self.spec_stages(),
    {
        self.stages
    }

    /// Declares that `before` must finish before `after` begins. An edge
    /// naming a stage that does not exist is refused (`false`).
    pub fn add_edge(&mut self, before: usize, after: usize) -> (added: bool)
        requires
            old(self).wf(),
        ensures
            final(self).wf(),
            final(self).spec_stages() == old(self).spec_stages(),
            added == (before < old(self).spec_stages() && after < old(self).spec_stages()),
            added ==> final(self).spec_edges() == old(self).spec_edges().push((before, after)),
            !added ==> final(self).spec_edges() == old(self).spec_edges(),
    {
        if before < self.stages && after < self.stages {
            self.edges.push((before, after));
            assert forall|k: int| 0 <= k < self.spec_edges().len() implies (#[trigger] self.spec_edges()[k]).0
                < self.spec_stages() && self.spec_edges()[k].1 < self.spec_stages() by {
                if k < old(self).spec_edges().len() {
                    assert(self.spec_edges()[k] == old(self).spec_edges()[k]);
                }
            }
            true
        } else {
            false
        }
    }

    /// The edge, if any, that keeps stage `v` waiting on an unplaced stage.
    fn blocking_edge(&self, placed: &Vec<bool>, v: usize) -> (r: Option<usize>)
        requires
            self.wf(),
            placed@.len() == self.spec_stages(),
        ensures
            r matches Some(k) ==> k < self.spec_edges().len() && self.spec_edges()[k as int].1 == v
                && !placed@[self.spec_edges()[k as int].0 as int],
            r is None ==> forall|k: int|
                0 <= k < self.spec_edges().len() && #[trigger] self.spec_edges()[k].1 == v
                    ==> placed@[self.spec_edges()[k].0 as int],
    {
        let mut k: usize = 0;
        while k < self.edges.len()
            invariant
                self.wf(),
                placed@.len() == self.spec_stages(),
                k <= self.spec_edges().len(),
                forall|j: int|
                    0 <= j < k && #[trigger] self.spec_edges()[j].1 == v ==> placed@[self.spec_edges()[
                        j].0 as int],
            decreases self.spec_edges().len() - k,
        {
            let (a, b) = self.edges[k];
            if b == v && !placed[a] {
                return Some(k);
            }
            k = k + 1;
        }
        None
    }

    /// Orders the stages so that every edge's first stage runs before its
    /// second. `None` exactly when no such order exists (the edges form a
    /// cycle).
    pub fn schedule(&self) -> (r: Option<Vec<usize>>)
        requires
            self.wf(),
        ensures
            r matches Some(o) ==> valid_order(o@, self.spec_stages(), self.spec_edges()),
            r is None ==> forall|o: Seq<usize>| !valid_order(o, self.spec_stages(), self.spec_edges()),
    {
        let n = self.stages;
        let ghost edges = self.spec_edges();
        let mut placed: Vec<bool> = Vec::new();
        let mut i: usize = 0;
        while i < n
            invariant
                i <= n,
                placed@.len() == i,
                forall|v: int| 0 <= v < i ==> !placed@[v],
            decreases n - i,
        {
            placed.push(false);
            i = i + 1;
        }
        let mut order: Vec<usize> = Vec::new();
        let ghost mut pos: Seq<int> = Seq::new(n as nat, |v: int| 0);
        while order.len() < n
            invariant
                self.wf(),
                n as nat == self.spec_stages(),
                edges == self.spec_edges(),
                placed@.len() == n,
                pos.len() == n,
                order@.len() <= n,
                forall|i: int| 0 <= i < order@.len() ==> #[trigger] order@[i] < n,
                forall|i: int, j: int| 0 <= i < j < order@.len() ==> order@[i] != order@[j],
                forall|i: int| 0 <= i < order@.len() ==> #[trigger] placed@[order@[i] as int],
                forall|v: int|
                    0 <= v < n && #[trigger] placed@[v] ==> 0 <= pos[v] < order@.len() && order@[pos[v]]
                        == v,
                forall|k: int|
                    0 <= k < edges.len() && #[trigger] placed@[edges[k].1 as int] ==> placed@[edges[k].0 as int]
                        && pos[edges[k].0 as int] < pos[edges[k].1 as int],
            decreases n - order@.len(),
        {
            // find an unplaced stage whose predecessors have all run
            let mut v: usize = 0;
            let mut found = false;
            while v < n && !found
                invariant
                    self.wf(),
                    n as nat == self.spec_stages(),
                    edges == self.spec_edges(),
                    placed@.len() == n,
                    v <= n,
                    found ==> v < n && !placed@[v as int] && forall|k: int|
                        0 <= k < edges.len() && #[trigger] edges[k].1 == v ==> placed@[edges[k].0 as int],
                    forall|u: int|
                        0 <= u < v && !#[trigger] placed@[u] ==> exists|k: int|
                            0 <= k < edges.len() && edges[k].1 == u && edges[k].0 < n && !placed@[edges[k].0 as int],
                decreases n - v + if found { 0int } else { 1int },
            {
                if placed[v] {
                    v = v + 1;
                } else {
                    match self.blocking_edge(&placed, v) {
                        None => {
                            found = true;
                        },
                        Some(k) => {
                            assert(edges[k as int].1 == v && edges[k as int].0 < n);
                            v = v + 1;
                        },
                    }
                }
            }
            if !found {
                proof {
                    let stuck = Seq::new(n as nat, |u: int| !placed@[u]);
                    assert(order@.len() < n);
                    // some stage is unplaced: the placed ones are exactly those in `order`
                    let w = self.lemma_unplaced_exists(placed@, order@, pos);
                    assert(blocked(stuck, edges)) by {
                        assert forall|u: int| 0 <= u < stuck.len() && #[trigger] stuck[u] implies exists|k: int|
                            0 <= k < edges.len() && edges[k].1 == u && edges[k].0 < stuck.len() && #[trigger] stuck[
                                edges[k].0 as int] by {
                            let k = choose|k: int|
                                0 <= k < edges.len() && edges[k].1 == u && edges[k].0 < n && !placed@[edges[k].0 as int];
                            assert(stuck[edges[k].0 as int]);
                        }
                    }
                    assert forall|o: Seq<usize>| !valid_order(o, self.spec_stages(), self.spec_edges()) by {
                        lemma_blocked_no_order(stuck, edges, o, w);
                    }
                }
                return None;
            }
            let ghost at = order@.len() as int;
            proof {
                assert(!placed@[v as int]);
            }
            order.push(v);
            placed.set(v, true);
            proof {
                pos = pos.update(v as int, at);
                assert forall|k: int|
                    0 <= k < edges.len() && #[trigger] placed@[edges[k].1 as int] implies placed@[edges[k].0 as int]
                        && pos[edges[k].0 as int] < pos[edges[k].1 as int] by {
                    if edges[k].1 == v {
                        assert(edges[k].0 != v);
                    }
                }
                assert forall|i: int, j: int| 0 <= i < j < order@.len() implies order@[i] != order@[j] by {
                    if j == at {
                        assert(placed@[order@[i] as int]);
                    }
                }
            }
        }
        proof {
            let o = order@;
            assert forall|k: int, i: int, j: int|
                #![trigger edges[k], o[i], o[j]]
                0 <= k < edges.len() && 0 <= i < o.len() && 0 <= j < o.len() && o[i]
                    == edges[k].0 && o[j] == edges[k].1 implies i < j by {
                let a = edges[k].0 as int;
                let b = edges[k].1 as int;
                assert(placed@[b]);
                assert(o[pos[a]] == o[i]);
                assert(o[pos[b]] == o[j]);
            }
        }
        Some(order)
    }

    /// Where fewer stages are placed than exist, one is unplaced.
    proof fn lemma_unplaced_exists(&self, placed: Seq<bool>, order: Seq<usize>, pos: Seq<int>) -> (w: int)
        requires
            placed.len() == self.spec_stages(),
            pos.len() == self.spec_stages(),
            order.len() < self.spec_stages(),
            forall|i: int| 0 <= i < order.len() ==> #[trigger] order[i] < self.spec_stages(),
            forall|i: int, j: int| 0 <= i < j < order.len() ==> order[i] != order[j],
            forall|v: int|
                0 <= v < placed.len() && #[trigger] placed[v] ==> 0 <= pos[v] < order.len() && order[pos[v]]
                    == v,
        ensures
            0 <= w < placed.len(),
            !placed[w],
    {
        let n = placed.len() as int;
        let vals = order.map_values(|x: usize| x as int);
        assert forall|i: int, j: int| 0 <= i < vals.len() && 0 <= j < vals.len() && i != j implies vals[i]
            != vals[j] by {
            if i < j {
                assert(order[i] != order[j]);
            } else {
                assert(order[j] != order[i]);
            }
        }
        let w = lemma_distinct_values_miss(vals, n);
        if placed[w] {
            assert(vals[pos[w]] == w);
        }
        w
    }
}

} // verus!
