//! The transition table: the NFA flattened into per-state edge lists, the
//! epsilon-elimination passes, the reachability prune, and the renumbering.

use itertools::Itertools;
use vstd::prelude::*;

use crate::node::{
    Edge, EdgeModel, NFAGraph, Node, edge_model_intersect, edge_models, seq_int_sum,
    lemma_seq_int_sum_take, lemma_seq_int_sum_prefix_bound,
};
use crate::regex_gen::{BuiltNode, built_of};

verus! {

/// Mathematical picture of a transition table.
#[verifier::ext_equal]
pub struct TableModel {
    pub start: usize,
    pub end: Seq<usize>,
    pub states: Seq<usize>,
    pub trans: Seq<Seq<EdgeModel>>,
}

/// The table a fragment flattens to: one state per node, the node's edges
/// as listed, the accepting set seeded with the fragment's end.
pub open spec fn table_from_built(b: Seq<BuiltNode>, start: usize, end: usize) -> TableModel {
    TableModel {
        start,
        end: seq![end],
        states: Seq::new(b.len(), |i: int| b[i].id as usize),
        trans: Seq::new(b.len(), |i: int| b[i].edges),
    }
}

/// The transition table: `states` lists the state ids, `trans[i]` the edges
/// leaving `states[i]` in insertion order, `end` the accepting ids.
#[derive(Debug)]
pub struct TransTable {
    pub start: usize,
    pub end: Vec<usize>,
    pub states: Vec<usize>,
    pub trans: Vec<Vec<Edge>>,
}

impl TransTable {
    /// The mathematical picture of this table.
    pub open spec fn model(self) -> TableModel {
        TableModel {
            start: self.start,
            end: self.end@,
            states: self.states@,
            trans: self.trans@.map_values(|v: Vec<Edge>| edge_models(v@)),
        }
    }

    /// Well-formed: states unique, edge lists parallel to states, start and
    /// accepting states listed, destinations listed, predicates well-formed.
    pub open spec fn wf(self) -> bool {
        &&& self.states@.no_duplicates()
        &&& self.trans@.len() == self.states@.len()
        &&& self.states@.contains(self.start)
        &&& self.end@.no_duplicates()
        &&& forall|i: int| 0 <= i < self.end@.len() ==> self.states@.contains(#[trigger] self.end@[i])
        &&& forall|i: int, k: int|
            0 <= i < self.trans@.len() && 0 <= k < self.trans@[i]@.len()
                ==> self.states@.contains((#[trigger] self.trans@[i]@[k]).next_node)
        &&& forall|i: int, k: int|
            0 <= i < self.trans@.len() && 0 <= k < self.trans@[i]@.len()
                ==> (#[trigger] self.trans@[i]@[k]).wf()
    }

    /// The edge counts of the states, in listing order.
    pub open spec fn trans_lens(self) -> Seq<int> {
        self.trans@.map_values(|v: Vec<Edge>| v@.len() as int)
    }
}

/// Whether the model steps from state `a` to state `b` along one edge;
/// `eps` selects epsilon edges, otherwise consuming edges.
pub open spec fn m_step(m: TableModel, a: usize, b: usize, eps: bool) -> bool {
    exists|i: int, k: int|
        {
            &&& 0 <= i < m.states.len()
            &&& m.states[i] == a
            &&& i < m.trans.len()
            &&& 0 <= k < m.trans[i].len()
            &&& (if eps {
                (#[trigger] m.trans[i][k]).pred is None
            } else {
                m.trans[i][k].pred is Some
            })
            &&& m.trans[i][k].next == b as int
        }
}

/// Whether `p` is a chain of steps of the selected kind.
pub open spec fn m_path(m: TableModel, p: Seq<usize>, eps: bool) -> bool {
    p.len() >= 1 && forall|x: int|
        0 <= x < p.len() - 1 ==> m_step(m, #[trigger] p[x], p[x + 1], eps)
}

/// Whether state `b` is reachable from state `a` along edges of the
/// selected kind.
pub open spec fn m_reaches(m: TableModel, a: usize, b: usize, eps: bool) -> bool {
    exists|p: Seq<usize>| m_path(m, p, eps) && p.first() == a && p.last() == b
}

pub proof fn lemma_reaches_refl(m: TableModel, a: usize, eps: bool)
    ensures
        m_reaches(m, a, a, eps),
{
    let p: Seq<usize> = seq![a];
    assert(m_path(m, p, eps));
    assert(p.first() == a && p.last() == a);
}

pub proof fn lemma_reaches_step(m: TableModel, a: usize, b: usize, c: usize, eps: bool)
    requires
        m_reaches(m, a, b, eps),
        m_step(m, b, c, eps),
    ensures
        m_reaches(m, a, c, eps),
{
    let p = choose|p: Seq<usize>| m_path(m, p, eps) && p.first() == a && p.last() == b;
    let q = p.push(c);
    assert forall|x: int| 0 <= x < q.len() - 1 implies #[trigger] m_step(
        m,
        q[x],
        q[x + 1],
        eps,
    ) by {
        if x < p.len() - 1 {
            assert(m_step(m, p[x], p[x + 1], eps));
            assert(q[x] == p[x] && q[x + 1] == p[x + 1]);
        } else {
            assert(q[x] == p.last() && q[x + 1] == c);
        }
    }
    assert(m_path(m, q, eps));
    assert(q.first() == a && q.last() == c);
}

/// A set of states that holds `a` and is closed under steps holds every
/// state reachable from `a`.
pub proof fn lemma_reaches_in_closed(m: TableModel, vis: Seq<usize>, a: usize, b: usize, eps: bool)
    requires
        vis.contains(a),
        forall|v: usize, w: usize|
            vis.contains(v) && #[trigger] m_step(m, v, w, eps) ==> vis.contains(w),
        m_reaches(m, a, b, eps),
    ensures
        vis.contains(b),
{
    let p = choose|p: Seq<usize>| m_path(m, p, eps) && p.first() == a && p.last() == b;
    lemma_path_in_closed(m, vis, p, eps);
}

proof fn lemma_path_in_closed(m: TableModel, vis: Seq<usize>, p: Seq<usize>, eps: bool)
    requires
        m_path(m, p, eps),
        vis.contains(p.first()),
        forall|v: usize, w: usize|
            vis.contains(v) && #[trigger] m_step(m, v, w, eps) ==> vis.contains(w),
    ensures
        vis.contains(p.last()),
    decreases p.len(),
{
    if p.len() > 1 {
        assert(m_step(m, p[0], p[1], eps));
        let q = p.drop_first();
        assert forall|x: int| 0 <= x < q.len() - 1 implies #[trigger] m_step(
            m,
            q[x],
            q[x + 1],
            eps,
        ) by {
            assert(m_step(m, p[x + 1], p[x + 2], eps));
        }
        assert(m_path(m, q, eps));
        assert(q.first() == p[1]);
        lemma_path_in_closed(m, vis, q, eps);
    }
}

/// Whether some consuming edge leaves state `v`.
pub open spec fn m_has_ne_edge(m: TableModel, v: usize) -> bool {
    exists|w: usize| m_step(m, v, w, false)
}

/// Whether some epsilon edge leaves state `v`.
pub open spec fn m_has_eps_edge(m: TableModel, v: usize) -> bool {
    exists|w: usize| m_step(m, v, w, true)
}

impl TransTable {
    /// Flatten a complete NFA fragment: one table state per node, the edges
    /// copied in order, the accepting set seeded with the fragment's end.
    pub fn from_nfa(nfa: &NFAGraph) -> (r: TransTable)
        requires
            nfa.wf(),
        ensures
            r.wf(),
            r.start == nfa.start,
            r.end@ == seq![nfa.end],
            r.states@.len() == nfa.nodes@.len(),
            forall|i: int|
                0 <= i < nfa.nodes@.len() ==> r.states@[i] == (#[trigger] nfa.nodes@[i]).id,
            r.trans@.len() == nfa.nodes@.len(),
            forall|i: int|
                0 <= i < nfa.nodes@.len() ==> edge_models(#[trigger] r.trans@[i]@)
                    == edge_models(nfa.nodes@[i].edges@),
            r.model() == table_from_built(built_of(nfa.nodes@), nfa.start, nfa.end),
    {
        let mut states: Vec<usize> = Vec::new();
        let mut trans: Vec<Vec<Edge>> = Vec::new();
        let mut i: usize = 0;
        while i < nfa.nodes.len()
            invariant
                i <= nfa.nodes@.len(),
                nfa.wf(),
                states@.len() == i,
                trans@.len() == i,
                forall|j: int|
                    0 <= j < i ==> states@[j] == (#[trigger] nfa.nodes@[j]).id,
                forall|j: int|
                    0 <= j < i ==> edge_models(#[trigger] trans@[j]@) == edge_models(
                        nfa.nodes@[j].edges@,
                    ),
                forall|j: int, k: int|
                    0 <= j < i && 0 <= k < trans@[j]@.len()
                        ==> (#[trigger] trans@[j]@[k]).wf(),
                forall|j: int, k: int|
                    0 <= j < i && 0 <= k < trans@[j]@.len()
                        ==> (#[trigger] trans@[j]@[k]).next_node == nfa.nodes@[
                        j
                    ].edges@[k].next_node,
            decreases nfa.nodes@.len() - i,
        {
            let node = &nfa.nodes[i];
            states.push(node.id);
            let copied = clone_edges(&node.edges);
            proof {
                assert(nfa.nodes@[i as int].wf());
                assert forall|k: int|
                    0 <= k < copied@.len() implies (#[trigger] copied@[k]).wf() by {
                    assert(nfa.nodes@[i as int].edges@[k].wf());
                    assert(copied@[k].model() == nfa.nodes@[i as int].edges@[k].model());
                }
            }
            trans.push(copied);
            i = i + 1;
        }
        let mut end: Vec<usize> = Vec::new();
        end.push(nfa.end);
        let r = TransTable { start: nfa.start, end, states, trans };
        proof {
            lemma_from_nfa_wf(r, *nfa);
            let tb = table_from_built(built_of(nfa.nodes@), nfa.start, nfa.end);
            assert(r.model().states =~= tb.states) by {
                assert forall|j: int|
                    0 <= j < nfa.nodes@.len() implies r.states@[j] == tb.states[j] by {
                    assert(built_of(nfa.nodes@)[j].id == nfa.nodes@[j].id as int);
                }
            }
            assert(r.model().trans =~= tb.trans) by {
                assert forall|j: int|
                    0 <= j < nfa.nodes@.len() implies r.model().trans[j] == tb.trans[j] by {
                    assert(r.model().trans[j] == edge_models(r.trans@[j]@));
                    assert(built_of(nfa.nodes@)[j].edges == edge_models(
                        nfa.nodes@[j].edges@,
                    ));
                }
            }
            assert(r.model() =~= tb);
        }
        r
    }

    /// The start state id.
    pub fn start_id(&self) -> (r: usize)
        ensures
            r == self.start,
    {
        self.start
    }

    /// Number of states.
    pub fn state_count(&self) -> (r: usize)
        ensures
            r == self.states@.len(),
    {
        self.states.len()
    }

    /// Total number of edges over all states.
    pub fn edge_count(&self) -> (r: usize)
        requires
            seq_int_sum(self.trans_lens()) <= usize::MAX,
        ensures
            r == seq_int_sum(self.trans_lens()),
    {
        let ghost lens = self.trans_lens();
        let mut sum: usize = 0;
        let mut i: usize = 0;
        while i < self.trans.len()
            invariant
                i <= self.trans@.len(),
                lens == self.trans_lens(),
                lens.len() == self.trans@.len(),
                forall|j: int| 0 <= j < lens.len() ==> #[trigger] lens[j] >= 0,
                seq_int_sum(lens) <= usize::MAX,
                sum == seq_int_sum(lens.take(i as int)),
            decreases self.trans@.len() - i,
        {
            proof {
                lemma_seq_int_sum_take(lens, i as int);
                lemma_seq_int_sum_prefix_bound(lens, i as int + 1);
            }
            sum = sum + self.trans[i].len();
            i = i + 1;
        }
        proof {
            assert(lens.take(lens.len() as int) =~= lens);
        }
        sum
    }

    /// The accepting state ids.
    pub fn end_set(&self) -> (r: &Vec<usize>)
        ensures
            *r == self.end,
    {
        &self.end
    }

    /// The edge lists, parallel to the state listing.
    pub fn trans_map(&self) -> (r: &Vec<Vec<Edge>>)
        ensures
            *r == self.trans,
    {
        &self.trans
    }

    /// Index of `q` in the state listing.
    pub fn index_of_state(&self, q: usize) -> (r: usize)
        requires
            self.states@.contains(q),
        ensures
            r < self.states@.len(),
            self.states@[r as int] == q,
    {
        let mut i: usize = 0;
        while i < self.states.len()
            invariant
                i <= self.states@.len(),
                forall|j: int| 0 <= j < i ==> self.states@[j] != q,
            decreases self.states@.len() - i,
        {
            if self.states[i] == q {
                return i;
            }
            i = i + 1;
        }
        proof {
            let k = choose|k: int| 0 <= k < self.states@.len() && self.states@[k] == q;
            assert(false);
        }
        0
    }
}

/// Faithful copy of an edge list.
fn clone_edges(v: &Vec<Edge>) -> (r: Vec<Edge>)
    ensures
        r@.len() == v@.len(),
        forall|i: int|
            0 <= i < v@.len() ==> (#[trigger] r@[i]).model() == v@[i].model() && (v@[i].wf()
                ==> r@[i].wf()) && r@[i].next_node == v@[i].next_node && (r@[i].matches
                is None <==> v@[i].matches is None),
        edge_models(r@) == edge_models(v@),
{
    let mut r: Vec<Edge> = Vec::new();
    let mut i: usize = 0;
    while i < v.len()
        invariant
            i <= v@.len(),
            r@.len() == i,
            forall|j: int|
                0 <= j < i ==> (#[trigger] r@[j]).model() == v@[j].model() && (v@[j].wf()
                    ==> r@[j].wf()) && r@[j].next_node == v@[j].next_node && (r@[j].matches
                    is None <==> v@[j].matches is None),
        decreases v@.len() - i,
    {
        let e = v[i].clone();
        proof {
            assert(e.model() == v@[i as int].model());
            assert(e.model().next == v@[i as int].model().next);
            assert(e.next_node == v@[i as int].next_node);
            assert(e.matches is None <==> e.model().pred is None);
        }
        r.push(e);
        i = i + 1;
    }
    proof {
        assert(edge_models(r@) =~= edge_models(v@));
    }
    r
}

proof fn lemma_from_nfa_wf(r: TransTable, nfa: NFAGraph)
    requires
        nfa.wf(),
        r.start == nfa.start,
        r.end@ == seq![nfa.end],
        r.states@.len() == nfa.nodes@.len(),
        r.trans@.len() == nfa.nodes@.len(),
        forall|i: int|
            0 <= i < nfa.nodes@.len() ==> r.states@[i] == (#[trigger] nfa.nodes@[i]).id,
        forall|i: int, k: int|
            0 <= i < r.trans@.len() && 0 <= k < r.trans@[i]@.len()
                ==> (#[trigger] r.trans@[i]@[k]).wf(),
        forall|i: int, k: int|
            0 <= i < r.trans@.len() && 0 <= k < r.trans@[i]@.len()
                ==> r.trans@[i]@.len() == nfa.nodes@[i].edges@.len() && (#[trigger] r.trans@[
                i
            ]@[k]).next_node == nfa.nodes@[i].edges@[k].next_node,
    ensures
        r.wf(),
{
    assert forall|i: int, j: int|
        0 <= i < j < r.states@.len() implies r.states@[i] != r.states@[j] by {
        assert(nfa.nodes@[i].id < nfa.nodes@[j].id);
    }
    assert(r.states@.no_duplicates());
    let si = choose|si: int|
        0 <= si < nfa.nodes@.len() && (#[trigger] nfa.nodes@[si]).id == nfa.start as int;
    assert(r.states@[si] == nfa.start);
    assert(r.states@.contains(r.start));
    let ei = choose|ei: int|
        0 <= ei < nfa.nodes@.len() && (#[trigger] nfa.nodes@[ei]).id == nfa.end as int;
    assert(r.states@[ei] == nfa.end);
    assert(r.states@.contains(nfa.end));
    assert forall|i: int, k: int|
        0 <= i < r.trans@.len() && 0 <= k < r.trans@[i]@.len() implies r.states@.contains(
        (#[trigger] r.trans@[i]@[k]).next_node,
    ) by {
        let d = r.trans@[i]@[k].next_node;
        assert(nfa.nodes@[i].edges@[k].next_node == d);
        assert(nfa.contains_id(d as int));
        let di = choose|di: int|
            0 <= di < nfa.nodes@.len() && (#[trigger] nfa.nodes@[di]).id == d as int;
        assert(r.states@[di] == d);
    }
}

/// Whether every step of the selected kind out of `v` lands inside `vis`.
pub open spec fn closed_at(m: TableModel, vis: Seq<usize>, v: usize, eps: bool) -> bool {
    forall|w: usize| m_step(m, v, w, eps) ==> vis.contains(w)
}

proof fn lemma_unique_subset_len(a: Seq<usize>, b: Seq<usize>)
    requires
        a.no_duplicates(),
        b.no_duplicates(),
        forall|x: usize| a.contains(x) ==> b.contains(x),
    ensures
        a.len() <= b.len(),
{
    broadcast use vstd::seq_lib::seq_to_set_is_finite;

    a.unique_seq_to_set();
    b.unique_seq_to_set();
    assert(a.to_set().subset_of(b.to_set()));
    vstd::set_lib::lemma_len_subset(a.to_set(), b.to_set());
}

/// Whether `x` occurs in `v`.
pub(crate) fn contains_state(v: &Vec<usize>, x: usize) -> (r: bool)
    ensures
        r == v@.contains(x),
{
    let mut i: usize = 0;
    while i < v.len()
        invariant
            i <= v@.len(),
            forall|j: int| 0 <= j < i ==> v@[j] != x,
        decreases v@.len() - i,
    {
        if v[i] == x {
            return true;
        }
        i = i + 1;
    }
    false
}

impl TransTable {
    /// Every state reachable from `from` along edges of the selected kind
    /// (`true`: epsilon edges only, `false`: consuming edges only), in
    /// discovery order, `from` first.
    fn reach_set(&self, from: usize, eps: bool) -> (r: Vec<usize>)
        requires
            self.wf(),
            self.states@.contains(from),
        ensures
            r@.no_duplicates(),
            forall|j: int| 0 <= j < r@.len() ==> self.states@.contains(#[trigger] r@[j]),
            r@.contains(from),
            forall|j: int|
                0 <= j < r@.len() ==> m_reaches(self.model(), from, #[trigger] r@[j], eps),
            forall|v: usize| m_reaches(self.model(), from, v, eps) ==> r@.contains(v),
    {
        let ghost m = self.model();
        let mut visited: Vec<usize> = Vec::new();
        let mut stack: Vec<usize> = Vec::new();
        visited.push(from);
        stack.push(from);
        proof {
            lemma_reaches_refl(m, from, eps);
            assert(visited@[0] == from);
            assert(stack@[0] == from);
        }
        while stack.len() > 0
            invariant
                self.wf(),
                m == self.model(),
                self.states@.contains(from),
                visited@.no_duplicates(),
                forall|j: int|
                    0 <= j < visited@.len() ==> self.states@.contains(#[trigger] visited@[j]),
                visited@.contains(from),
                forall|j: int|
                    0 <= j < stack@.len() ==> visited@.contains(#[trigger] stack@[j]),
                forall|j: int|
                    0 <= j < visited@.len() ==> m_reaches(m, from, #[trigger] visited@[j], eps),
                forall|j: int|
                    0 <= j < visited@.len() ==> stack@.contains(#[trigger] visited@[j])
                        || closed_at(m, visited@, visited@[j], eps),
                visited@.len() <= self.states@.len(),
            decreases self.states@.len() - visited@.len(), stack@.len(),
        {
            let ghost visited0 = visited@;
            let ghost stack_before = stack@;
            let q = match stack.pop() {
                Option::Some(x) => x,
                Option::None => {
                    return visited;
                },
            };
            let ghost stack0 = stack@;
            proof {
                assert(stack0 == stack_before.drop_last());
                assert(q == stack_before.last());
                assert forall|j: int|
                    0 <= j < visited@.len() implies visited@[j] == q || stack@.contains(
                    #[trigger] visited@[j],
                ) || closed_at(m, visited@, visited@[j], eps) by {
                    if stack_before.contains(visited@[j]) {
                        let sj = choose|sj: int|
                            0 <= sj < stack_before.len() && stack_before[sj] == visited@[j];
                        if sj < stack_before.len() - 1 {
                            assert(stack@[sj] == visited@[j]);
                        } else {
                            assert(visited@[j] == q);
                        }
                    }
                }
            }
            let idx = self.index_of_state(q);
            let mut k: usize = 0;
            while k < self.trans[idx].len()
                invariant
                    self.wf(),
                    m == self.model(),
                    self.states@.contains(from),
                    idx < self.states@.len(),
                    idx < self.trans@.len(),
                    self.states@[idx as int] == q,
                    k <= self.trans@[idx as int]@.len(),
                    visited@.no_duplicates(),
                    forall|j: int|
                        0 <= j < visited@.len() ==> self.states@.contains(
                            #[trigger] visited@[j],
                        ),
                    visited@.contains(from),
                    visited@.contains(q),
                    forall|j: int|
                        0 <= j < stack@.len() ==> visited@.contains(#[trigger] stack@[j]),
                    forall|j: int|
                        0 <= j < visited@.len() ==> m_reaches(
                            m,
                            from,
                            #[trigger] visited@[j],
                            eps,
                        ),
                    forall|j: int|
                        0 <= j < visited@.len() ==> visited@[j] == q || stack@.contains(
                            #[trigger] visited@[j],
                        ) || closed_at(m, visited@, visited@[j], eps),
                    forall|k2: int|
                        0 <= k2 < k ==> ((if eps {
                            (#[trigger] self.trans@[idx as int]@[k2]).matches is None
                        } else {
                            self.trans@[idx as int]@[k2].matches is Some
                        }) ==> visited@.contains(self.trans@[idx as int]@[k2].next_node)),
                    visited@.len() <= self.states@.len(),
                    visited@.len() >= visited0.len(),
                    (visited@.len() == visited0.len() && stack@ == stack0) || visited@.len()
                        > visited0.len(),
                decreases self.trans@[idx as int]@.len() - k,
            {
                let e = &self.trans[idx][k];
                let selected = if eps {
                    e.matches().is_none()
                } else {
                    e.matches().is_some()
                };
                if selected {
                    let d = e.next_node();
                    proof {
                        assert(m.trans[idx as int] == edge_models(self.trans@[idx as int]@));
                        assert(m.trans[idx as int][k as int] == self.trans@[idx as int]@[
                            k as int
                        ].model());
                        assert(m_step(m, q, d, eps));
                        lemma_reaches_step(m, from, q, d, eps);
                        assert(self.states@.contains(
                            self.trans@[idx as int]@[k as int].next_node,
                        ));
                    }
                    if !contains_state(&visited, d) {
                        let ghost visited_prev = visited@;
                        let ghost stack_prev = stack@;
                        visited.push(d);
                        stack.push(d);
                        proof {
                            assert(visited@[visited@.len() - 1] == d);
                            assert(visited@.contains(d));
                            assert forall|x: usize|
                                visited_prev.contains(x) implies visited@.contains(x) by {
                                let j = choose|j: int|
                                    0 <= j < visited_prev.len() && visited_prev[j] == x;
                                assert(visited@[j] == x);
                            }
                            assert forall|j: int|
                                0 <= j < visited@.len() implies visited@[j] == q
                                    || stack@.contains(#[trigger] visited@[j]) || closed_at(
                                m,
                                visited@,
                                visited@[j],
                                eps,
                            ) by {
                                if j < visited_prev.len() {
                                    if visited_prev[j] != q && !stack_prev.contains(
                                        visited_prev[j],
                                    ) {
                                        assert(closed_at(m, visited_prev, visited_prev[j], eps));
                                        assert forall|w: usize|
                                            m_step(m, visited@[j], w, eps) implies visited@
                                                .contains(w) by {
                                            assert(visited_prev.contains(w));
                                        }
                                    } else {
                                        if stack_prev.contains(visited_prev[j]) {
                                            let sj = choose|sj: int|
                                                0 <= sj < stack_prev.len() && stack_prev[sj]
                                                    == visited_prev[j];
                                            assert(stack@[sj] == visited_prev[j]);
                                        }
                                    }
                                } else {
                                    assert(visited@[j] == d);
                                    assert(stack@[stack@.len() - 1] == d);
                                }
                            }
                            assert forall|j: int|
                                0 <= j < stack@.len() implies visited@.contains(
                                #[trigger] stack@[j],
                            ) by {
                                if j < stack_prev.len() {
                                    assert(visited_prev.contains(stack_prev[j]));
                                } else {
                                    assert(stack@[j] == d);
                                    assert(visited@[visited@.len() - 1] == d);
                                }
                            }
                            assert forall|k2: int|
                                0 <= k2 < k implies ((if eps {
                                (#[trigger] self.trans@[idx as int]@[k2]).matches is None
                            } else {
                                self.trans@[idx as int]@[k2].matches is Some
                            }) ==> visited@.contains(
                                self.trans@[idx as int]@[k2].next_node,
                            )) by {
                                if (if eps {
                                    self.trans@[idx as int]@[k2].matches is None
                                } else {
                                    self.trans@[idx as int]@[k2].matches is Some
                                }) {
                                    assert(visited_prev.contains(
                                        self.trans@[idx as int]@[k2].next_node,
                                    ));
                                }
                            }
                            lemma_unique_subset_len(visited@, self.states@);
                        }
                    }
                    proof {
                        assert(visited@.contains(self.trans@[idx as int]@[k as int].next_node));
                    }
                }
                k = k + 1;
            }
            proof {
                assert forall|w: usize| m_step(m, q, w, eps) implies visited@.contains(w) by {
                    let (i2, k2): (int, int) = choose|i2: int, k2: int|
                        {
                            &&& 0 <= i2 < m.states.len()
                            &&& m.states[i2] == q
                            &&& i2 < m.trans.len()
                            &&& 0 <= k2 < m.trans[i2].len()
                            &&& (if eps {
                                (#[trigger] m.trans[i2][k2]).pred is None
                            } else {
                                m.trans[i2][k2].pred is Some
                            })
                            &&& m.trans[i2][k2].next == w as int
                        };
                    assert(i2 == idx as int);
                    assert(m.trans[idx as int] == edge_models(self.trans@[idx as int]@));
                    assert(m.trans[idx as int][k2] == self.trans@[idx as int]@[k2].model());
                    assert(self.trans@[idx as int]@[k2].next_node == w);
                }
                assert(closed_at(m, visited@, q, eps));
            }
        }
        proof {
            assert forall|v: usize, w: usize|
                visited@.contains(v) && #[trigger] m_step(m, v, w, eps) implies visited@
                    .contains(w) by {
                let j = choose|j: int| 0 <= j < visited@.len() && visited@[j] == v;
                assert(stack@.contains(visited@[j]) || closed_at(m, visited@, visited@[j], eps));
                assert(closed_at(m, visited@, v, eps));
            }
            assert forall|v: usize| m_reaches(m, from, v, eps) implies visited@.contains(
                v,
            ) by {
                lemma_reaches_in_closed(m, visited@, from, v, eps);
            }
        }
        visited
    }
}

/// Membership in the filtered epsilon closure of `q`: reachable from `q`
/// through epsilon edges alone, other than `q` itself, and worth keeping —
/// accepting, or with at least one consuming edge out.
pub open spec fn m_eps_member(m: TableModel, q: usize, v: usize) -> bool {
    m_reaches(m, q, v, true) && v != q && (m.end.contains(v) || m_has_ne_edge(m, v))
}

pub open spec fn eps_move_rec(m: TableModel, q: usize, s: Seq<usize>) -> Seq<usize>
    decreases s.len(),
{
    if s.len() == 0 {
        Seq::empty()
    } else {
        eps_move_rec(m, q, s.drop_last()) + (if m_eps_member(m, q, s.last()) {
            seq![s.last()]
        } else {
            Seq::empty()
        })
    }
}

/// The filtered epsilon closure of `q`, in state-listing order.
pub open spec fn m_eps_move(m: TableModel, q: usize) -> Seq<usize> {
    eps_move_rec(m, q, m.states)
}

pub proof fn lemma_eps_move_rec_take(m: TableModel, q: usize, s: Seq<usize>, i: int)
    requires
        0 <= i < s.len(),
    ensures
        eps_move_rec(m, q, s.take(i + 1)) == eps_move_rec(m, q, s.take(i)) + (if m_eps_member(
            m,
            q,
            s[i],
        ) {
            seq![s[i]]
        } else {
            Seq::empty()
        }),
{
    assert(s.take(i + 1).drop_last() =~= s.take(i));
    assert(s.take(i + 1).last() == s[i]);
}

impl TransTable {
    /// Whether some consuming edge leaves `state`.
    fn has_nontrivial_edge(&self, state: usize) -> (r: bool)
        requires
            self.wf(),
            self.states@.contains(state),
        ensures
            r == m_has_ne_edge(self.model(), state),
    {
        let ghost m = self.model();
        let idx = self.index_of_state(state);
        let mut k: usize = 0;
        while k < self.trans[idx].len()
            invariant
                self.wf(),
                m == self.model(),
                idx < self.states@.len(),
                idx < self.trans@.len(),
                self.states@[idx as int] == state,
                k <= self.trans@[idx as int]@.len(),
                forall|k2: int|
                    0 <= k2 < k ==> (#[trigger] self.trans@[idx as int]@[k2]).matches is None,
            decreases self.trans@[idx as int]@.len() - k,
        {
            let hit = match self.trans[idx][k].matches() {
                Option::Some(_) => true,
                Option::None => false,
            };
            if hit {
                proof {
                    assert(m.trans[idx as int] == edge_models(self.trans@[idx as int]@));
                    assert(m.trans[idx as int][k as int] == self.trans@[idx as int]@[
                        k as int
                    ].model());
                    let d = self.trans@[idx as int]@[k as int].next_node;
                    assert(m_step(m, state, d, false));
                }
                return true;
            }
            k = k + 1;
        }
        proof {
            assert forall|w: usize| !m_step(m, state, w, false) by {
                if m_step(m, state, w, false) {
                    let (i2, k2): (int, int) = choose|i2: int, k2: int|
                        {
                            &&& 0 <= i2 < m.states.len()
                            &&& m.states[i2] == state
                            &&& i2 < m.trans.len()
                            &&& 0 <= k2 < m.trans[i2].len()
                            &&& (#[trigger] m.trans[i2][k2]).pred is Some
                            &&& m.trans[i2][k2].next == w as int
                        };
                    assert(i2 == idx as int);
                    assert(m.trans[idx as int] == edge_models(self.trans@[idx as int]@));
                    assert(m.trans[idx as int][k2] == self.trans@[idx as int]@[k2].model());
                    assert(false);
                }
            }
        }
        false
    }

    /// Whether some epsilon edge leaves `state`.
    fn has_epsilon_edge(&self, state: usize) -> (r: bool)
        requires
            self.wf(),
            self.states@.contains(state),
        ensures
            r == m_has_eps_edge(self.model(), state),
    {
        let ghost m = self.model();
        let idx = self.index_of_state(state);
        let mut k: usize = 0;
        while k < self.trans[idx].len()
            invariant
                self.wf(),
                m == self.model(),
                idx < self.states@.len(),
                idx < self.trans@.len(),
                self.states@[idx as int] == state,
                k <= self.trans@[idx as int]@.len(),
                forall|k2: int|
                    0 <= k2 < k ==> (#[trigger] self.trans@[idx as int]@[k2]).matches is Some,
            decreases self.trans@[idx as int]@.len() - k,
        {
            let hit = match self.trans[idx][k].matches() {
                Option::Some(_) => false,
                Option::None => true,
            };
            if hit {
                proof {
                    assert(m.trans[idx as int] == edge_models(self.trans@[idx as int]@));
                    assert(m.trans[idx as int][k as int] == self.trans@[idx as int]@[
                        k as int
                    ].model());
                    let d = self.trans@[idx as int]@[k as int].next_node;
                    assert(m_step(m, state, d, true));
                }
                return true;
            }
            k = k + 1;
        }
        proof {
            assert forall|w: usize| !m_step(m, state, w, true) by {
                if m_step(m, state, w, true) {
                    let (i2, k2): (int, int) = choose|i2: int, k2: int|
                        {
                            &&& 0 <= i2 < m.states.len()
                            &&& m.states[i2] == state
                            &&& i2 < m.trans.len()
                            &&& 0 <= k2 < m.trans[i2].len()
                            &&& (#[trigger] m.trans[i2][k2]).pred is None
                            &&& m.trans[i2][k2].next == w as int
                        };
                    assert(i2 == idx as int);
                    assert(m.trans[idx as int] == edge_models(self.trans@[idx as int]@));
                    assert(m.trans[idx as int][k2] == self.trans@[idx as int]@[k2].model());
                    assert(false);
                }
            }
        }
        false
    }

    /// The filtered epsilon closure of `state`: every other state reachable
    /// from it through epsilon edges alone that is accepting or has a
    /// consuming edge out, in state-listing order.
    pub fn epsilon_move(&self, state: usize) -> (r: Vec<usize>)
        requires
            self.wf(),
            self.states@.contains(state),
        ensures
            r@ == m_eps_move(self.model(), state),
    {
        let ghost m = self.model();
        let vis = self.reach_set(state, true);
        proof {
            assert forall|v: usize| vis@.contains(v) implies m_reaches(m, state, v, true) by {
                let j = choose|j: int| 0 <= j < vis@.len() && vis@[j] == v;
                assert(m_reaches(m, state, vis@[j], true));
            }
        }
        let mut r: Vec<usize> = Vec::new();
        let mut i: usize = 0;
        while i < self.states.len()
            invariant
                self.wf(),
                m == self.model(),
                self.states@.contains(state),
                i <= self.states@.len(),
                forall|v: usize| vis@.contains(v) <==> m_reaches(m, state, v, true),
                r@ == eps_move_rec(m, state, self.states@.take(i as int)),
            decreases self.states@.len() - i,
        {
            let s = self.states[i];
            proof {
                assert(self.states@.contains(s));
            }
            let mut keep = false;
            if contains_state(&vis, s) && s != state {
                if contains_state(&self.end, s) {
                    keep = true;
                } else {
                    keep = self.has_nontrivial_edge(s);
                }
            }
            proof {
                assert(keep == m_eps_member(m, state, self.states@[i as int]));
                lemma_eps_move_rec_take(m, state, self.states@, i as int);
                if keep {
                    assert(eps_move_rec(m, state, self.states@.take(i as int + 1)) =~= r@.push(
                        self.states@[i as int],
                    ));
                } else {
                    assert(eps_move_rec(m, state, self.states@.take(i as int + 1)) =~= r@);
                }
            }
            if keep {
                r.push(s);
            }
            i = i + 1;
        }
        proof {
            assert(self.states@.take(self.states@.len() as int) =~= self.states@);
        }
        r
    }
}

pub proof fn lemma_singleton_contains<A>(x: A, v: A)
    ensures
        seq![x].contains(v) <==> v == x,
{
    if seq![x].contains(v) {
        let j = choose|j: int| 0 <= j < seq![x].len() && seq![x][j] == v;
        assert(j == 0);
    }
    if v == x {
        assert(seq![x][0] == v);
    }
}

pub proof fn lemma_empty_contains<A>(v: A)
    ensures
        !Seq::<A>::empty().contains(v),
{
    if Seq::<A>::empty().contains(v) {
        let j = choose|j: int| 0 <= j < Seq::<A>::empty().len() && Seq::<A>::empty()[j] == v;
    }
}

pub proof fn lemma_concat_contains<A>(a: Seq<A>, b: Seq<A>, v: A)
    ensures
        (a + b).contains(v) <==> a.contains(v) || b.contains(v),
{
    if a.contains(v) {
        let j = choose|j: int| 0 <= j < a.len() && a[j] == v;
        assert((a + b)[j] == v);
    }
    if b.contains(v) {
        let j = choose|j: int| 0 <= j < b.len() && b[j] == v;
        assert((a + b)[a.len() + j] == v);
    }
    if (a + b).contains(v) {
        let j = choose|j: int| 0 <= j < (a + b).len() && (a + b)[j] == v;
        if j < a.len() {
            assert(a[j] == v);
        } else {
            assert(b[j - a.len()] == v);
        }
    }
}

/// What the filtered closure holds: exactly the listed states that are
/// filtered closure members.
#[verifier::rlimit(50)]
pub proof fn lemma_eps_move_rec_contains(m: TableModel, q: usize, s: Seq<usize>, v: usize)
    ensures
        eps_move_rec(m, q, s).contains(v) <==> s.contains(v) && m_eps_member(m, q, v),
    decreases s.len(),
{
    if s.len() == 0 {
        lemma_empty_contains::<usize>(v);
    } else {
        let dl = s.drop_last();
        lemma_eps_move_rec_contains(m, q, dl, v);
        let tail: Seq<usize> = if m_eps_member(m, q, s.last()) {
            seq![s.last()]
        } else {
            Seq::empty()
        };
        assert(eps_move_rec(m, q, s) == eps_move_rec(m, q, dl) + tail);
        lemma_concat_contains(eps_move_rec(m, q, dl), tail, v);
        lemma_singleton_contains(s.last(), v);
        lemma_empty_contains::<usize>(v);
        assert(s.contains(v) <==> dl.contains(v) || s.last() == v) by {
            lemma_concat_contains(dl, seq![s.last()], v);
            lemma_singleton_contains(s.last(), v);
            assert(dl + seq![s.last()] =~= s);
        }
    }
}

/// The states of `s`, in order, that lie on an epsilon path to `end0` and
/// are not `end0` itself.
pub open spec fn end_adds_rec(m: TableModel, end0: usize, s: Seq<usize>) -> Seq<usize>
    decreases s.len(),
{
    if s.len() == 0 {
        Seq::empty()
    } else {
        end_adds_rec(m, end0, s.drop_last()) + (if s.last() != end0 && m_reaches(
            m,
            s.last(),
            end0,
            true,
        ) {
            seq![s.last()]
        } else {
            Seq::empty()
        })
    }
}

pub proof fn lemma_end_adds_rec_take(m: TableModel, end0: usize, s: Seq<usize>, i: int)
    requires
        0 <= i < s.len(),
    ensures
        end_adds_rec(m, end0, s.take(i + 1)) == end_adds_rec(m, end0, s.take(i)) + (if s[i]
            != end0 && m_reaches(m, s[i], end0, true) {
            seq![s[i]]
        } else {
            Seq::empty()
        }),
{
    assert(s.take(i + 1).drop_last() =~= s.take(i));
    assert(s.take(i + 1).last() == s[i]);
}

#[verifier::rlimit(50)]
pub proof fn lemma_end_adds_rec_contains(m: TableModel, end0: usize, s: Seq<usize>, v: usize)
    ensures
        end_adds_rec(m, end0, s).contains(v) <==> s.contains(v) && v != end0 && m_reaches(
            m,
            v,
            end0,
            true,
        ),
    decreases s.len(),
{
    if s.len() == 0 {
        lemma_empty_contains::<usize>(v);
    } else {
        let dl = s.drop_last();
        lemma_end_adds_rec_contains(m, end0, dl, v);
        let tail: Seq<usize> = if s.last() != end0 && m_reaches(m, s.last(), end0, true) {
            seq![s.last()]
        } else {
            Seq::empty()
        };
        assert(end_adds_rec(m, end0, s) == end_adds_rec(m, end0, dl) + tail);
        lemma_concat_contains(end_adds_rec(m, end0, dl), tail, v);
        lemma_singleton_contains(s.last(), v);
        lemma_empty_contains::<usize>(v);
        assert(s.contains(v) <==> dl.contains(v) || s.last() == v) by {
            lemma_concat_contains(dl, seq![s.last()], v);
            lemma_singleton_contains(s.last(), v);
            assert(dl + seq![s.last()] =~= s);
        }
    }
}

/// The accepting set after expansion: the seed, then every state with an
/// epsilon path to it, in state-listing order.
pub open spec fn m_expand_end(m: TableModel) -> Seq<usize> {
    m.end + end_adds_rec(m, m.end[0], m.states)
}

/// The table after the accepting-set expansion.
pub open spec fn m_expand(m: TableModel) -> TableModel {
    TableModel { start: m.start, end: m_expand_end(m), states: m.states, trans: m.trans }
}

impl TransTable {
    /// Expand the accepting set: a state whose filtered epsilon closure
    /// holds the seed accepting state becomes accepting itself.
    fn mark_accepting(&mut self)
        requires
            old(self).wf(),
            old(self).end@.len() == 1,
        ensures
            final(self).wf(),
            final(self).states == old(self).states,
            final(self).trans == old(self).trans,
            final(self).start == old(self).start,
            final(self).model() == m_expand(old(self).model()),
    {
        let ghost m0 = self.model();
        let end0 = self.end[0];
        let mut adds: Vec<usize> = Vec::new();
        let mut i: usize = 0;
        while i < self.states.len()
            invariant
                self.wf(),
                m0 == self.model(),
                self.end@.len() == 1,
                self.end@[0] == end0,
                i <= self.states@.len(),
                adds@ == end_adds_rec(m0, end0, self.states@.take(i as int)),
            decreases self.states@.len() - i,
        {
            let q = self.states[i];
            proof {
                assert(self.states@.contains(q));
            }
            let dests = self.epsilon_move(q);
            let hit = contains_state(&dests, end0);
            proof {
                lemma_eps_move_rec_contains(m0, q, m0.states, end0);
                assert(self.states@.contains(end0));
                assert(m0.end.contains(end0)) by {
                    assert(m0.end[0] == end0);
                }
                assert(hit == (q != end0 && m_reaches(m0, q, end0, true))) by {
                    if hit {
                        assert(m_eps_member(m0, q, end0));
                        assert(end0 != q);
                    }
                    if q != end0 && m_reaches(m0, q, end0, true) {
                        assert(m_eps_member(m0, q, end0));
                    }
                }
                lemma_end_adds_rec_take(m0, end0, self.states@, i as int);
                if hit {
                    assert(end_adds_rec(m0, end0, self.states@.take(i as int + 1)) =~= adds@
                        .push(q));
                } else {
                    assert(end_adds_rec(m0, end0, self.states@.take(i as int + 1)) =~= adds@);
                }
            }
            if hit {
                adds.push(q);
            }
            i = i + 1;
        }
        proof {
            assert(self.states@.take(self.states@.len() as int) =~= self.states@);
        }
        let ghost adds_snap = adds@;
        let mut moved = adds;
        self.end.append(&mut moved);
        proof {
            assert(self.end@ == m0.end + adds_snap);
            assert forall|j: int|
                0 <= j < self.end@.len() implies self.states@.contains(
                #[trigger] self.end@[j],
            ) by {
                if j >= 1 {
                    assert(self.end@[j] == adds_snap[j - 1]);
                    assert(adds_snap.contains(adds_snap[j - 1]));
                    lemma_end_adds_rec_contains(m0, end0, m0.states, adds_snap[j - 1]);
                }
            }
            assert(self.end@.no_duplicates()) by {
                assert forall|x: int, y: int|
                    0 <= x < y < self.end@.len() implies self.end@[x] != self.end@[y] by {
                    if x == 0 {
                        assert(self.end@[0] == end0);
                        assert(adds_snap.contains(adds_snap[y - 1]));
                        lemma_end_adds_rec_contains(m0, end0, m0.states, adds_snap[y - 1]);
                    } else {
                        assert(adds_snap[x - 1] != adds_snap[y - 1]) by {
                            lemma_end_adds_no_dup(m0, end0, m0.states);
                        }
                    }
                }
            }
            assert(self.model() =~= m_expand(m0));
        }
    }
}

/// The expansion lists no state twice.
pub proof fn lemma_end_adds_no_dup(m: TableModel, end0: usize, s: Seq<usize>)
    requires
        s.no_duplicates(),
    ensures
        end_adds_rec(m, end0, s).no_duplicates(),
    decreases s.len(),
{
    if s.len() > 0 {
        lemma_end_adds_no_dup(m, end0, s.drop_last());
        let a = end_adds_rec(m, end0, s.drop_last());
        if s.last() != end0 && m_reaches(m, s.last(), end0, true) {
            assert(!a.contains(s.last())) by {
                lemma_end_adds_rec_contains(m, end0, s.drop_last(), s.last());
                if s.drop_last().contains(s.last()) {
                    let j = choose|j: int|
                        0 <= j < s.drop_last().len() && s.drop_last()[j] == s.last();
                    assert(s[j] == s[s.len() - 1]);
                }
            }
            assert forall|x: int, y: int|
                0 <= x < y < (a + seq![s.last()]).len() implies (a + seq![s.last()])[x] != (a
                + seq![s.last()])[y] by {
                if y < a.len() {
                    assert(a[x] != a[y]);
                } else {
                    assert((a + seq![s.last()])[y] == s.last());
                    assert(a.contains(a[x]));
                }
            }
        } else {
            assert(a + Seq::<usize>::empty() =~= a);
        }
    }
}

/// The consuming edges of a list, in order.
pub open spec fn ne_models_rec(es: Seq<EdgeModel>) -> Seq<EdgeModel>
    decreases es.len(),
{
    if es.len() == 0 {
        Seq::empty()
    } else {
        ne_models_rec(es.drop_last()) + (if es.last().pred is Some {
            seq![es.last()]
        } else {
            Seq::empty()
        })
    }
}

pub proof fn lemma_ne_models_rec_take(es: Seq<EdgeModel>, k: int)
    requires
        0 <= k < es.len(),
    ensures
        ne_models_rec(es.take(k + 1)) == ne_models_rec(es.take(k)) + (if es[k].pred is Some {
            seq![es[k]]
        } else {
            Seq::empty()
        }),
{
    assert(es.take(k + 1).drop_last() =~= es.take(k));
    assert(es.take(k + 1).last() == es[k]);
}

#[verifier::rlimit(50)]
pub proof fn lemma_ne_models_rec_contains(es: Seq<EdgeModel>, e: EdgeModel)
    ensures
        ne_models_rec(es).contains(e) <==> es.contains(e) && e.pred is Some,
    decreases es.len(),
{
    if es.len() == 0 {
        lemma_empty_contains::<EdgeModel>(e);
    } else {
        let dl = es.drop_last();
        lemma_ne_models_rec_contains(dl, e);
        let tail: Seq<EdgeModel> = if es.last().pred is Some {
            seq![es.last()]
        } else {
            Seq::empty()
        };
        assert(ne_models_rec(es) == ne_models_rec(dl) + tail);
        lemma_concat_contains(ne_models_rec(dl), tail, e);
        lemma_singleton_contains(es.last(), e);
        lemma_empty_contains::<EdgeModel>(e);
        assert(es.contains(e) <==> dl.contains(e) || es.last() == e) by {
            lemma_concat_contains(dl, seq![es.last()], e);
            lemma_singleton_contains(es.last(), e);
            assert(dl + seq![es.last()] =~= es);
        }
    }
}

/// The one listing index of state `q`.
pub open spec fn m_index_of(m: TableModel, q: usize) -> int {
    choose|i: int| 0 <= i < m.states.len() && m.states[i] == q
}

/// The consuming edges collected over the closure members, in member order.
pub open spec fn graft_rec(m: TableModel, members: Seq<usize>) -> Seq<EdgeModel>
    decreases members.len(),
{
    if members.len() == 0 {
        Seq::empty()
    } else {
        graft_rec(m, members.drop_last()) + ne_models_rec(
            m.trans[m_index_of(m, members.last())],
        )
    }
}

pub proof fn lemma_graft_rec_take(m: TableModel, members: Seq<usize>, j: int)
    requires
        0 <= j < members.len(),
    ensures
        graft_rec(m, members.take(j + 1)) == graft_rec(m, members.take(j)) + ne_models_rec(
            m.trans[m_index_of(m, members[j])],
        ),
{
    assert(members.take(j + 1).drop_last() =~= members.take(j));
    assert(members.take(j + 1).last() == members[j]);
}

/// What a state with an epsilon edge gains: the consuming edges of its
/// filtered closure members.
pub open spec fn m_graft_of(m: TableModel, q: usize) -> Seq<EdgeModel> {
    graft_rec(m, m_eps_move(m, q))
}

/// Row `i` after the graft.
pub open spec fn m_grafted_row(m: TableModel, i: int) -> Seq<EdgeModel> {
    m.trans[i] + (if m_has_eps_edge(m, m.states[i]) {
        m_graft_of(m, m.states[i])
    } else {
        Seq::empty()
    })
}

/// The table after the graft.
pub open spec fn m_graft(m: TableModel) -> TableModel {
    TableModel {
        start: m.start,
        end: m.end,
        states: m.states,
        trans: Seq::new(m.trans.len(), |i: int| m_grafted_row(m, i)),
    }
}

impl TransTable {
    /// The edges a state with epsilon moves gains: for every member of its
    /// filtered epsilon closure, a copy of each of the member's consuming
    /// edges, in member order.
    fn possible_nontrivial_edges(&self, state: usize) -> (r: Vec<Edge>)
        requires
            self.wf(),
            self.states@.contains(state),
        ensures
            edge_models(r@) == m_graft_of(self.model(), state),
            forall|k: int|
                0 <= k < r@.len() ==> (#[trigger] r@[k]).wf() && self.states@.contains(
                    r@[k].next_node,
                ),
    {
        let ghost m = self.model();
        let members = self.epsilon_move(state);
        let mut r: Vec<Edge> = Vec::new();
        let mut j: usize = 0;
        while j < members.len()
            invariant
                self.wf(),
                m == self.model(),
                members@ == m_eps_move(m, state),
                j <= members@.len(),
                edge_models(r@) == graft_rec(m, members@.take(j as int)),
                forall|k: int|
                    0 <= k < r@.len() ==> (#[trigger] r@[k]).wf() && self.states@.contains(
                        r@[k].next_node,
                    ),
            decreases members@.len() - j,
        {
            let q = members[j];
            proof {
                assert(members@.contains(q));
                lemma_eps_move_rec_contains(m, state, m.states, q);
                assert(self.states@.contains(q));
            }
            let idx = self.index_of_state(q);
            proof {
                assert(m_index_of(m, q) == idx as int) by {
                    assert(m.states[idx as int] == q);
                    let c = m_index_of(m, q);
                    assert(m.states[c] == q);
                }
                assert(m.trans[idx as int] == edge_models(self.trans@[idx as int]@));
            }
            let ghost row = m.trans[idx as int];
            let mut k: usize = 0;
            while k < self.trans[idx].len()
                invariant
                    self.wf(),
                    m == self.model(),
                    idx < self.states@.len(),
                    idx < self.trans@.len(),
                    row == m.trans[idx as int],
                    row == edge_models(self.trans@[idx as int]@),
                    k <= self.trans@[idx as int]@.len(),
                    row.len() == self.trans@[idx as int]@.len(),
                    edge_models(r@) == graft_rec(m, members@.take(j as int)) + ne_models_rec(
                        row.take(k as int),
                    ),
                    forall|k2: int|
                        0 <= k2 < r@.len() ==> (#[trigger] r@[k2]).wf()
                            && self.states@.contains(r@[k2].next_node),
                decreases self.trans@[idx as int]@.len() - k,
            {
                let e = &self.trans[idx][k];
                let keep = match e.matches() {
                    Option::Some(_) => true,
                    Option::None => false,
                };
                proof {
                    lemma_ne_models_rec_take(row, k as int);
                    assert(row[k as int] == self.trans@[idx as int]@[k as int].model());
                }
                if keep {
                    let c = e.clone();
                    proof {
                        assert(c.model() == self.trans@[idx as int]@[k as int].model());
                        assert(self.trans@[idx as int]@[k as int].wf());
                        assert(c.wf());
                        assert(c.next_node == self.trans@[idx as int]@[k as int].next_node);
                        assert(self.states@.contains(c.next_node));
                        assert(edge_models(r@.push(c)) =~= edge_models(r@) + seq![c.model()]);
                        assert(graft_rec(m, members@.take(j as int)) + ne_models_rec(row.take(
                            k as int + 1,
                        )) =~= edge_models(r@) + seq![c.model()]);
                    }
                    r.push(c);
                } else {
                    proof {
                        assert(ne_models_rec(row.take(k as int + 1)) =~= ne_models_rec(
                            row.take(k as int),
                        ));
                    }
                }
                k = k + 1;
            }
            proof {
                assert(row.take(row.len() as int) =~= row);
                lemma_graft_rec_take(m, members@, j as int);
                assert(edge_models(r@) =~= graft_rec(m, members@.take(j as int + 1)));
            }
            j = j + 1;
        }
        proof {
            assert(members@.take(members@.len() as int) =~= members@);
        }
        r
    }

    /// Graft pass: every state with an epsilon edge gains copies of the
    /// consuming edges reachable through its filtered epsilon closure.
    fn graft_edges(&mut self)
        requires
            old(self).wf(),
        ensures
            final(self).wf(),
            final(self).states == old(self).states,
            final(self).end == old(self).end,
            final(self).start == old(self).start,
            final(self).trans@.len() == old(self).trans@.len(),
            final(self).model() == m_graft(old(self).model()),
    {
        let ghost m0 = self.model();
        let mut adds: Vec<Vec<Edge>> = Vec::new();
        let mut i: usize = 0;
        while i < self.states.len()
            invariant
                self.wf(),
                m0 == self.model(),
                i <= self.states@.len(),
                adds@.len() == i,
                forall|j: int|
                    0 <= j < i ==> edge_models(#[trigger] adds@[j]@) == (if m_has_eps_edge(
                        m0,
                        m0.states[j],
                    ) {
                        m_graft_of(m0, m0.states[j])
                    } else {
                        Seq::empty()
                    }),
                forall|j: int, k: int|
                    0 <= j < i && 0 <= k < adds@[j]@.len() ==> (#[trigger] adds@[j]@[k]).wf()
                        && self.states@.contains(adds@[j]@[k].next_node),
            decreases self.states@.len() - i,
        {
            let q = self.states[i];
            proof {
                assert(self.states@.contains(q));
            }
            if self.has_epsilon_edge(q) {
                let more = self.possible_nontrivial_edges(q);
                adds.push(more);
            } else {
                adds.push(Vec::new());
                proof {
                    assert(edge_models(Seq::<Edge>::empty()) =~= Seq::<EdgeModel>::empty());
                }
            }
            i = i + 1;
        }
        let ghost adds_snap = adds@;
        let mut i: usize = 0;
        let mut rest = adds;
        while i < self.trans.len()
            invariant
                i <= self.trans@.len(),
                self.trans@.len() == m0.trans.len(),
                self.states == old(self).states,
                self.end == old(self).end,
                self.start == old(self).start,
                self.states@ == m0.states,
                adds_snap.len() == m0.trans.len(),
                rest@ == adds_snap.skip(i as int),
                old(self).wf(),
                forall|j: int|
                    0 <= j < m0.trans.len() ==> edge_models(#[trigger] adds_snap[j]@) == (
                    if m_has_eps_edge(m0, m0.states[j]) {
                        m_graft_of(m0, m0.states[j])
                    } else {
                        Seq::empty()
                    }),
                forall|j: int|
                    i <= j < m0.trans.len() ==> edge_models(#[trigger] self.trans@[j]@)
                        == m0.trans[j],
                forall|j: int|
                    0 <= j < i ==> edge_models(#[trigger] self.trans@[j]@) == m_grafted_row(
                        m0,
                        j,
                    ),
                forall|j: int, k: int|
                    0 <= j < self.trans@.len() && 0 <= k < self.trans@[j]@.len()
                        ==> (#[trigger] self.trans@[j]@[k]).wf() && self.states@.contains(
                        self.trans@[j]@[k].next_node,
                    ),
                forall|j: int, k: int|
                    0 <= j < adds_snap.len() && 0 <= k < adds_snap[j]@.len()
                        ==> (#[trigger] adds_snap[j]@[k]).wf() && self.states@.contains(
                        adds_snap[j]@[k].next_node,
                    ),
            decreases self.trans@.len() - i,
        {
            let mut a = rest.remove(0);
            proof {
                assert(a == adds_snap[i as int]);
                assert(rest@ == adds_snap.skip(i as int + 1));
            }
            let ghost old_row = self.trans@[i as int]@;
            let row = &mut self.trans[i];
            row.append(&mut a);
            proof {
                assert(self.trans@[i as int]@ == old_row + adds_snap[i as int]@);
                assert(edge_models(old_row + adds_snap[i as int]@) =~= edge_models(old_row)
                    + edge_models(adds_snap[i as int]@));
                if m_has_eps_edge(m0, m0.states[i as int]) {
                    assert(m_grafted_row(m0, i as int) == m0.trans[i as int] + m_graft_of(
                        m0,
                        m0.states[i as int],
                    ));
                } else {
                    assert(m_grafted_row(m0, i as int) =~= m0.trans[i as int]);
                }
                assert(edge_models(self.trans@[i as int]@) =~= m_grafted_row(m0, i as int));
            }
            i = i + 1;
        }
        proof {
            assert(self.model().trans =~= m_graft(m0).trans);
            assert(self.model() =~= m_graft(m0));
        }
    }
}

/// A state survives the prune when the start state reaches it along
/// consuming edges.
pub open spec fn m_keep(m: TableModel, v: usize) -> bool {
    m_reaches(m, m.start, v, false)
}

/// The surviving states among the first `i` listed, in order.
pub open spec fn prune_states_rec(m: TableModel, i: int) -> Seq<usize>
    decreases i,
{
    if i <= 0 {
        Seq::empty()
    } else {
        prune_states_rec(m, i - 1) + (if m_keep(m, m.states[i - 1]) {
            seq![m.states[i - 1]]
        } else {
            Seq::empty()
        })
    }
}

/// The surviving rows among the first `i`, each stripped of its epsilon
/// edges, in order.
pub open spec fn prune_trans_rec(m: TableModel, i: int) -> Seq<Seq<EdgeModel>>
    decreases i,
{
    if i <= 0 {
        Seq::empty()
    } else {
        prune_trans_rec(m, i - 1) + (if m_keep(m, m.states[i - 1]) {
            seq![ne_models_rec(m.trans[i - 1])]
        } else {
            Seq::empty()
        })
    }
}

/// The surviving accepting states among the first `i` listed, in order.
pub open spec fn prune_end_rec(m: TableModel, i: int) -> Seq<usize>
    decreases i,
{
    if i <= 0 {
        Seq::empty()
    } else {
        prune_end_rec(m, i - 1) + (if m_keep(m, m.end[i - 1]) {
            seq![m.end[i - 1]]
        } else {
            Seq::empty()
        })
    }
}

/// The table after the reachability prune and the epsilon strip.
pub open spec fn m_prune(m: TableModel) -> TableModel {
    TableModel {
        start: m.start,
        end: prune_end_rec(m, m.end.len() as int),
        states: prune_states_rec(m, m.states.len() as int),
        trans: prune_trans_rec(m, m.states.len() as int),
    }
}

pub proof fn lemma_prune_states_rec_contains(m: TableModel, i: int, v: usize)
    requires
        0 <= i <= m.states.len(),
    ensures
        prune_states_rec(m, i).contains(v) <==> m.states.take(i).contains(v) && m_keep(m, v),
    decreases i,
{
    if i == 0 {
        lemma_empty_contains::<usize>(v);
        assert(m.states.take(0) =~= Seq::<usize>::empty());
    } else {
        lemma_prune_states_rec_contains(m, i - 1, v);
        let tail: Seq<usize> = if m_keep(m, m.states[i - 1]) {
            seq![m.states[i - 1]]
        } else {
            Seq::empty()
        };
        assert(prune_states_rec(m, i) == prune_states_rec(m, i - 1) + tail);
        lemma_concat_contains(prune_states_rec(m, i - 1), tail, v);
        lemma_singleton_contains(m.states[i - 1], v);
        lemma_empty_contains::<usize>(v);
        assert(m.states.take(i).contains(v) <==> m.states.take(i - 1).contains(v)
            || m.states[i - 1] == v) by {
            lemma_concat_contains(m.states.take(i - 1), seq![m.states[i - 1]], v);
            lemma_singleton_contains(m.states[i - 1], v);
            assert(m.states.take(i - 1) + seq![m.states[i - 1]] =~= m.states.take(i));
        }
    }
}

pub proof fn lemma_prune_states_no_dup(m: TableModel, i: int)
    requires
        0 <= i <= m.states.len(),
        m.states.no_duplicates(),
    ensures
        prune_states_rec(m, i).no_duplicates(),
    decreases i,
{
    if i > 0 {
        lemma_prune_states_no_dup(m, i - 1);
        let a = prune_states_rec(m, i - 1);
        if m_keep(m, m.states[i - 1]) {
            assert(!a.contains(m.states[i - 1])) by {
                lemma_prune_states_rec_contains(m, i - 1, m.states[i - 1]);
                if m.states.take(i - 1).contains(m.states[i - 1]) {
                    let j = choose|j: int|
                        0 <= j < i - 1 && #[trigger] m.states.take(i - 1)[j] == m.states[i
                            - 1];
                    assert(m.states[j] == m.states[i - 1]);
                }
            }
            let b = a + seq![m.states[i - 1]];
            assert forall|x: int, y: int| #![trigger b[x], b[y]]
                0 <= x < y < b.len() implies b[x] != b[y] by {
                if y < a.len() {
                    assert(a[x] != a[y]);
                } else {
                    assert(b[y] == m.states[i - 1]);
                    assert(a.contains(a[x]));
                }
            }
            assert(prune_states_rec(m, i) == b);
            assert(b.no_duplicates());
        } else {
            assert(a + Seq::<usize>::empty() =~= a);
        }
    }
}

pub proof fn lemma_prune_parallel_len(m: TableModel, i: int)
    requires
        0 <= i,
    ensures
        prune_states_rec(m, i).len() == prune_trans_rec(m, i).len(),
    decreases i,
{
    if i > 0 {
        lemma_prune_parallel_len(m, i - 1);
    }
}

/// The stripped rows stand beside their states: surviving state `k` keeps
/// the consuming edges of its old row.
pub proof fn lemma_prune_parallel_at(m: TableModel, i: int, k: int)
    requires
        0 <= i <= m.states.len(),
        0 <= k < prune_states_rec(m, i).len(),
    ensures
        exists|j: int|
            0 <= j < i && #[trigger] m.states[j] == prune_states_rec(m, i)[k] && m_keep(
                m,
                m.states[j],
            ) && prune_trans_rec(m, i)[k] == ne_models_rec(m.trans[j]),
    decreases i,
{
    lemma_prune_parallel_len(m, i);
    if i > 0 {
        lemma_prune_parallel_len(m, i - 1);
        if k < prune_states_rec(m, i - 1).len() {
            lemma_prune_parallel_at(m, i - 1, k);
            let j = choose|j: int|
                0 <= j < i - 1 && #[trigger] m.states[j] == prune_states_rec(m, i - 1)[k]
                    && m_keep(m, m.states[j]) && prune_trans_rec(m, i - 1)[k]
                    == ne_models_rec(m.trans[j]);
            assert(prune_states_rec(m, i)[k] == prune_states_rec(m, i - 1)[k]);
            assert(prune_trans_rec(m, i)[k] == prune_trans_rec(m, i - 1)[k]);
            assert(m.states[j] == prune_states_rec(m, i)[k]);
        } else {
            assert(m_keep(m, m.states[i - 1]));
            assert(prune_states_rec(m, i)[k] == m.states[i - 1]);
            assert(prune_trans_rec(m, i)[k] == ne_models_rec(m.trans[i - 1]));
        }
    }
}

impl TransTable {
    /// Prune pass: keep only the states the start state reaches along
    /// consuming edges, and strip every epsilon edge from the kept rows.
    fn prune_and_strip(&mut self)
        requires
            old(self).wf(),
        ensures
            final(self).wf(),
            final(self).start == old(self).start,
            final(self).model() == m_prune(old(self).model()),
    {
        let ghost m0 = self.model();
        let useful = self.reach_set(self.start, false);
        proof {
            assert forall|v: usize| useful@.contains(v) implies m_keep(m0, v) by {
                let j = choose|j: int| 0 <= j < useful@.len() && useful@[j] == v;
                assert(m_reaches(m0, self.start, useful@[j], false));
            }
            assert forall|v: usize| m_keep(m0, v) implies useful@.contains(v) by {}
        }
        let mut new_states: Vec<usize> = Vec::new();
        let mut new_trans: Vec<Vec<Edge>> = Vec::new();
        let mut i: usize = 0;
        while i < self.states.len()
            invariant
                self.wf(),
                m0 == self.model(),
                i <= self.states@.len(),
                forall|v: usize| useful@.contains(v) <==> m_keep(m0, v),
                new_states@ == prune_states_rec(m0, i as int),
                new_trans@.len() == new_states@.len(),
                forall|j: int|
                    0 <= j < new_trans@.len() ==> edge_models(#[trigger] new_trans@[j]@)
                        == prune_trans_rec(m0, i as int)[j],
                forall|j: int, k: int|
                    0 <= j < new_trans@.len() && 0 <= k < new_trans@[j]@.len()
                        ==> (#[trigger] new_trans@[j]@[k]).wf() && (new_trans@[j]@[k].matches
                        is Some) && self.states@.contains(new_trans@[j]@[k].next_node),
            decreases self.states@.len() - i,
        {
            let q = self.states[i];
            proof {
                lemma_prune_parallel_len(m0, i as int);
                lemma_prune_parallel_len(m0, i as int + 1);
            }
            if contains_state(&useful, q) {
                let stripped = strip_epsilon(&self.trans[i]);
                proof {
                    assert(m0.trans[i as int] == edge_models(self.trans@[i as int]@));
                    assert(edge_models(stripped@) == ne_models_rec(m0.trans[i as int]));
                    assert(prune_states_rec(m0, i as int + 1) =~= new_states@.push(q));
                    assert(prune_trans_rec(m0, i as int + 1) =~= prune_trans_rec(
                        m0,
                        i as int,
                    ).push(ne_models_rec(m0.trans[i as int])));
                    assert forall|k: int|
                        0 <= k < stripped@.len() implies (#[trigger] stripped@[k]).wf() && (
                        stripped@[k].matches is Some) && self.states@.contains(
                            stripped@[k].next_node,
                        ) by {
                        let j = choose|j: int|
                            0 <= j < self.trans@[i as int]@.len() && (#[trigger] stripped@[
                                k
                            ]).next_node == self.trans@[i as int]@[j].next_node && (
                            self.trans@[i as int]@[j].wf() ==> stripped@[k].wf());
                        assert(self.trans@[i as int]@[j].wf());
                        assert(self.states@.contains(self.trans@[i as int]@[j].next_node));
                    }
                }
                new_states.push(q);
                new_trans.push(stripped);
            } else {
                proof {
                    assert(prune_states_rec(m0, i as int + 1) =~= new_states@);
                    assert(prune_trans_rec(m0, i as int + 1) =~= prune_trans_rec(
                        m0,
                        i as int,
                    ));
                }
            }
            i = i + 1;
        }
        let mut new_end: Vec<usize> = Vec::new();
        let mut i: usize = 0;
        while i < self.end.len()
            invariant
                self.wf(),
                m0 == self.model(),
                i <= self.end@.len(),
                forall|v: usize| useful@.contains(v) <==> m_keep(m0, v),
                new_end@ == prune_end_rec(m0, i as int),
            decreases self.end@.len() - i,
        {
            let q = self.end[i];
            if contains_state(&useful, q) {
                proof {
                    assert(prune_end_rec(m0, i as int + 1) =~= new_end@.push(q));
                }
                new_end.push(q);
            } else {
                proof {
                    assert(prune_end_rec(m0, i as int + 1) =~= new_end@);
                }
            }
            i = i + 1;
        }
        proof {
            assert forall|i2: int, k2: int|
                0 <= i2 < m0.trans.len() && 0 <= k2 < m0.trans[i2].len() implies (
            #[trigger] m0.trans[i2][k2]).next == ((m0.trans[i2][k2].next) as usize) as int
                && m0.states.contains((m0.trans[i2][k2].next) as usize) by {
                assert(m0.trans[i2] == edge_models(self.trans@[i2]@));
                assert(m0.trans[i2][k2] == self.trans@[i2]@[k2].model());
                assert(self.states@.contains(self.trans@[i2]@[k2].next_node));
            }
        }
        self.states = new_states;
        self.trans = new_trans;
        self.end = new_end;
        proof {
            lemma_prune_wf(*self, m0);
            lemma_prune_parallel_len(m0, m0.states.len() as int);
            assert(self.trans@.len() == prune_trans_rec(m0, m0.states.len() as int).len());
            assert forall|j: int|
                0 <= j < self.trans@.len() implies self.model().trans[j] == m_prune(
                m0,
            ).trans[j] by {
                assert(self.model().trans[j] == edge_models(self.trans@[j]@));
            }
            assert(self.model().trans =~= m_prune(m0).trans);
            assert(self.model() =~= m_prune(m0));
        }
    }
}

/// The consuming edges of a list, copied in order.
fn strip_epsilon(v: &Vec<Edge>) -> (r: Vec<Edge>)
    ensures
        edge_models(r@) == ne_models_rec(edge_models(v@)),
        forall|k: int| 0 <= k < r@.len() ==> (#[trigger] r@[k]).matches is Some,
        forall|k: int|
            0 <= k < r@.len() ==> exists|j: int|
                0 <= j < v@.len() && (#[trigger] r@[k]).next_node == v@[j].next_node && (v@[
                    j
                ].wf() ==> r@[k].wf()),
{
    let ghost row = edge_models(v@);
    let mut r: Vec<Edge> = Vec::new();
    let mut i: usize = 0;
    while i < v.len()
        invariant
            i <= v@.len(),
            row == edge_models(v@),
            row.len() == v@.len(),
            edge_models(r@) == ne_models_rec(row.take(i as int)),
            forall|k: int| 0 <= k < r@.len() ==> (#[trigger] r@[k]).matches is Some,
            forall|k: int|
                0 <= k < r@.len() ==> exists|j: int|
                    0 <= j < v@.len() && (#[trigger] r@[k]).next_node == v@[j].next_node && (
                    v@[j].wf() ==> r@[k].wf()),
        decreases v@.len() - i,
    {
        let keep = match v[i].matches() {
            Option::Some(_) => true,
            Option::None => false,
        };
        proof {
            lemma_ne_models_rec_take(row, i as int);
            assert(row[i as int] == v@[i as int].model());
        }
        if keep {
            let ghost r0 = r@;
            let c = v[i].clone();
            proof {
                assert(c.model() == v@[i as int].model());
                assert(c.next_node == v@[i as int].next_node);
                assert(c.matches is Some);
            }
            r.push(c);
            proof {
                assert(r@[r@.len() - 1] == c);
                assert(edge_models(r@) =~= edge_models(r0) + seq![v@[i as int].model()]);
                assert(ne_models_rec(row.take(i as int + 1)) =~= edge_models(r@));
                assert forall|k: int|
                    0 <= k < r@.len() implies exists|j: int|
                    0 <= j < v@.len() && (#[trigger] r@[k]).next_node == v@[j].next_node && (
                    v@[j].wf() ==> r@[k].wf()) by {
                    if k < r0.len() {
                        assert(r@[k] == r0[k]);
                    } else {
                        assert(r@[k] == c);
                        assert(c.next_node == v@[i as int].next_node && (v@[i as int].wf()
                            ==> c.wf()));
                    }
                }
            }
        } else {
            proof {
                assert(ne_models_rec(row.take(i as int + 1)) =~= ne_models_rec(row.take(
                    i as int,
                )));
            }
        }
        i = i + 1;
    }
    proof {
        assert(row.take(row.len() as int) =~= row);
    }
    r
}

proof fn lemma_prune_wf(t: TransTable, m0: TableModel)
    requires
        t.start == m0.start,
        t.states@ == prune_states_rec(m0, m0.states.len() as int),
        t.end@ == prune_end_rec(m0, m0.end.len() as int),
        t.trans@.len() == t.states@.len(),
        m0.states.no_duplicates(),
        m0.end.no_duplicates(),
        m0.states.contains(m0.start),
        forall|i: int| 0 <= i < m0.end.len() ==> m0.states.contains(#[trigger] m0.end[i]),
        m0.states.len() == m0.trans.len(),
        forall|j: int, k: int|
            0 <= j < t.trans@.len() && 0 <= k < t.trans@[j]@.len()
                ==> (#[trigger] t.trans@[j]@[k]).wf() && (t.trans@[j]@[k].matches is Some),
        forall|j: int|
            0 <= j < t.trans@.len() ==> edge_models(#[trigger] t.trans@[j]@)
                == prune_trans_rec(m0, m0.states.len() as int)[j],
        forall|i: int, k: int|
            0 <= i < m0.trans.len() && 0 <= k < m0.trans[i].len()
                ==> (#[trigger] m0.trans[i][k]).next == ((m0.trans[i][k].next) as usize) as int
                && m0.states.contains((m0.trans[i][k].next) as usize),
    ensures
        t.wf(),
{
    lemma_prune_states_no_dup(m0, m0.states.len() as int);
    lemma_reaches_refl(m0, m0.start, false);
    assert(t.states@.contains(t.start)) by {
        lemma_prune_states_rec_contains(m0, m0.states.len() as int, m0.start);
        assert(m0.states.take(m0.states.len() as int) =~= m0.states);
    }
    assert(t.end@.no_duplicates()) by {
        lemma_prune_end_no_dup(m0, m0.end.len() as int);
    }
    assert forall|i: int|
        0 <= i < t.end@.len() implies t.states@.contains(#[trigger] t.end@[i]) by {
        lemma_prune_end_member(m0, m0.end.len() as int, i);
        lemma_prune_states_rec_contains(m0, m0.states.len() as int, t.end@[i]);
        assert(m0.states.take(m0.states.len() as int) =~= m0.states);
    }
    assert forall|j: int, k: int|
        0 <= j < t.trans@.len() && 0 <= k < t.trans@[j]@.len() implies t.states@.contains(
        (#[trigger] t.trans@[j]@[k]).next_node,
    ) by {
        lemma_prune_parallel_at(m0, m0.states.len() as int, j);
        let j0 = choose|j0: int|
            0 <= j0 < m0.states.len() && #[trigger] m0.states[j0] == prune_states_rec(
                m0,
                m0.states.len() as int,
            )[j] && m_keep(m0, m0.states[j0]) && prune_trans_rec(m0, m0.states.len() as int)[j]
                == ne_models_rec(m0.trans[j0]);
        let em = t.trans@[j]@[k].model();
        assert(edge_models(t.trans@[j]@)[k] == em);
        assert(ne_models_rec(m0.trans[j0]).contains(em)) by {
            assert(ne_models_rec(m0.trans[j0])[k] == em);
        }
        lemma_ne_models_rec_contains(m0.trans[j0], em);
        let k0 = choose|k0: int|
            0 <= k0 < m0.trans[j0].len() && m0.trans[j0][k0] == em;
        let d = t.trans@[j]@[k].next_node;
        assert(em.next == d as int);
        assert(m_step(m0, m0.states[j0], d, false)) by {
            assert(em.pred is Some);
        }
        assert(m_keep(m0, d)) by {
            lemma_reaches_step(m0, m0.start, m0.states[j0], d, false);
        }
        assert(m0.states.contains(d)) by {
            assert(m0.trans[j0][k0].next == d as int);
            assert(m0.states.contains((m0.trans[j0][k0].next) as usize));
        }
        lemma_prune_states_rec_contains(m0, m0.states.len() as int, d);
        assert(m0.states.take(m0.states.len() as int) =~= m0.states);
    }
}

pub proof fn lemma_prune_end_no_dup(m: TableModel, i: int)
    requires
        0 <= i <= m.end.len(),
        m.end.no_duplicates(),
    ensures
        prune_end_rec(m, i).no_duplicates(),
    decreases i,
{
    if i > 0 {
        lemma_prune_end_no_dup(m, i - 1);
        let a = prune_end_rec(m, i - 1);
        if m_keep(m, m.end[i - 1]) {
            assert(!a.contains(m.end[i - 1])) by {
                lemma_prune_end_contains_take(m, i - 1, m.end[i - 1]);
                if m.end.take(i - 1).contains(m.end[i - 1]) {
                    let j = choose|j: int|
                        0 <= j < i - 1 && #[trigger] m.end.take(i - 1)[j] == m.end[i - 1];
                    assert(m.end[j] == m.end[i - 1]);
                }
            }
            let b = a + seq![m.end[i - 1]];
            assert forall|x: int, y: int| #![trigger b[x], b[y]]
                0 <= x < y < b.len() implies b[x] != b[y] by {
                if y < a.len() {
                    assert(a[x] != a[y]);
                } else {
                    assert(b[y] == m.end[i - 1]);
                    assert(a.contains(a[x]));
                }
            }
            assert(prune_end_rec(m, i) == b);
            assert(b.no_duplicates());
        } else {
            assert(a + Seq::<usize>::empty() =~= a);
        }
    }
}

pub proof fn lemma_prune_end_contains_take(m: TableModel, i: int, v: usize)
    requires
        0 <= i <= m.end.len(),
    ensures
        prune_end_rec(m, i).contains(v) <==> m.end.take(i).contains(v) && m_keep(m, v),
    decreases i,
{
    if i == 0 {
        lemma_empty_contains::<usize>(v);
        assert(m.end.take(0) =~= Seq::<usize>::empty());
    } else {
        lemma_prune_end_contains_take(m, i - 1, v);
        let tail: Seq<usize> = if m_keep(m, m.end[i - 1]) {
            seq![m.end[i - 1]]
        } else {
            Seq::empty()
        };
        assert(prune_end_rec(m, i) == prune_end_rec(m, i - 1) + tail);
        lemma_concat_contains(prune_end_rec(m, i - 1), tail, v);
        lemma_singleton_contains(m.end[i - 1], v);
        lemma_empty_contains::<usize>(v);
        assert(m.end.take(i).contains(v) <==> m.end.take(i - 1).contains(v) || m.end[i - 1]
            == v) by {
            lemma_concat_contains(m.end.take(i - 1), seq![m.end[i - 1]], v);
            lemma_singleton_contains(m.end[i - 1], v);
            assert(m.end.take(i - 1) + seq![m.end[i - 1]] =~= m.end.take(i));
        }
    }
}

/// Each surviving accepting state is an old accepting state.
pub proof fn lemma_prune_end_member(m: TableModel, i: int, k: int)
    requires
        0 <= i <= m.end.len(),
        0 <= k < prune_end_rec(m, i).len(),
    ensures
        m.end.contains(prune_end_rec(m, i)[k]),
        m_keep(m, prune_end_rec(m, i)[k]),
    decreases i,
{
    if i > 0 {
        if k < prune_end_rec(m, i - 1).len() {
            lemma_prune_end_member(m, i - 1, k);
            assert(prune_end_rec(m, i)[k] == prune_end_rec(m, i - 1)[k]);
        } else {
            assert(m_keep(m, m.end[i - 1]));
            assert(prune_end_rec(m, i)[k] == m.end[i - 1]);
            assert(m.end.contains(m.end[i - 1]));
        }
    }
}

/// The full epsilon-elimination: accepting-set expansion, graft,
/// reachability prune, epsilon strip.
pub open spec fn m_as_dfa(m: TableModel) -> TableModel {
    m_prune(m_graft(m_expand(m)))
}

/// Each element of a path from the first state is reachable from it.
pub proof fn lemma_path_prefix_reaches(m: TableModel, p: Seq<usize>, x: int, eps: bool)
    requires
        m_path(m, p, eps),
        0 <= x < p.len(),
    ensures
        m_reaches(m, p.first(), p[x], eps),
{
    let q = p.take(x + 1);
    assert forall|y: int| 0 <= y < q.len() - 1 implies m_step(m, #[trigger] q[y], q[y + 1], eps) by {
        assert(m_step(m, p[y], p[y + 1], eps));
    }
    assert(m_path(m, q, eps));
    assert(q.first() == p.first() && q.last() == p[x]);
}

/// A consuming step among surviving states survives the prune.
pub proof fn lemma_prune_step(m: TableModel, a: usize, b: usize)
    requires
        m.states.no_duplicates(),
        m.trans.len() == m.states.len(),
        m_step(m, a, b, false),
        m_keep(m, a),
    ensures
        m_step(m_prune(m), a, b, false),
{
    let n = m.states.len() as int;
    let (i, k): (int, int) = choose|i: int, k: int|
        {
            &&& 0 <= i < m.states.len()
            &&& m.states[i] == a
            &&& i < m.trans.len()
            &&& 0 <= k < m.trans[i].len()
            &&& (#[trigger] m.trans[i][k]).pred is Some
            &&& m.trans[i][k].next == b as int
        };
    lemma_prune_states_rec_contains(m, n, a);
    assert(m.states.take(n) =~= m.states);
    assert(prune_states_rec(m, n).contains(a));
    let j = choose|j: int| 0 <= j < prune_states_rec(m, n).len() && prune_states_rec(m, n)[j] == a;
    lemma_prune_parallel_at(m, n, j);
    let j0 = choose|j0: int|
        0 <= j0 < n && #[trigger] m.states[j0] == prune_states_rec(m, n)[j] && m_keep(
            m,
            m.states[j0],
        ) && prune_trans_rec(m, n)[j] == ne_models_rec(m.trans[j0]);
    assert(j0 == i);
    let em = m.trans[i][k];
    assert(ne_models_rec(m.trans[i]).contains(em)) by {
        lemma_ne_models_rec_contains(m.trans[i], em);
        assert(m.trans[i].contains(em));
    }
    let k2 = choose|k2: int|
        0 <= k2 < ne_models_rec(m.trans[i]).len() && ne_models_rec(m.trans[i])[k2] == em;
    lemma_prune_parallel_len(m, n);
    assert(m_prune(m).states[j] == a);
    assert(m_prune(m).trans[j][k2] == em);
    assert(m_step(m_prune(m), a, b, false));
}

/// Reachability along consuming edges survives the prune: the start state
/// reaches every surviving state inside the pruned table itself.
pub proof fn lemma_prune_preserves_reach(m: TableModel, q: usize)
    requires
        m.states.no_duplicates(),
        m.trans.len() == m.states.len(),
        m_keep(m, q),
    ensures
        m_reaches(m_prune(m), m.start, q, false),
{
    let p = choose|p: Seq<usize>| m_path(m, p, false) && p.first() == m.start && p.last() == q;
    assert forall|x: int| 0 <= x < p.len() - 1 implies m_step(
        m_prune(m),
        #[trigger] p[x],
        p[x + 1],
        false,
    ) by {
        lemma_path_prefix_reaches(m, p, x, false);
        assert(m_step(m, p[x], p[x + 1], false));
        lemma_prune_step(m, p[x], p[x + 1]);
    }
    assert(m_path(m_prune(m), p, false));
}

impl TransTable {
    /// Eliminate the nondeterminism the epsilon edges carry: expand the
    /// accepting set through epsilon closures, graft the consuming edges of
    /// each closure onto its state, drop every state the start state cannot
    /// reach along consuming edges, and strip the epsilon edges.
    pub fn as_dfa(&mut self)
        requires
            old(self).wf(),
            old(self).end@.len() == 1,
        ensures
            final(self).wf(),
            final(self).start == old(self).start,
            final(self).model() == m_as_dfa(old(self).model()),
            forall|i: int, k: int|
                0 <= i < final(self).trans@.len() && 0 <= k < final(self).trans@[i]@.len()
                    ==> (#[trigger] final(self).trans@[i]@[k]).matches is Some,
            forall|i: int|
                0 <= i < final(self).states@.len() ==> m_reaches(
                    final(self).model(),
                    final(self).start,
                    #[trigger] final(self).states@[i],
                    false,
                ),
            forall|q: usize|
                final(self).states@.contains(q) && m_reaches(
                    old(self).model(),
                    q,
                    old(self).end@[0],
                    true,
                ) ==> final(self).end@.contains(q),
    {
        let ghost m0 = self.model();
        self.mark_accepting();
        let ghost m1 = self.model();
        self.graft_edges();
        let ghost m2 = self.model();
        self.prune_and_strip();
        let ambiguous = self.has_overlapping_edges();
        proof {
            assert(m1 == m_expand(m0));
            assert(m2 == m_graft(m1));
            assert(self.model() == m_prune(m2));
            assert(self.model() == m_as_dfa(m0));
            lemma_as_dfa_shape(*self, m0, m2);
        }
        if !ambiguous {
            return;
        }
    }
}

/// The shape facts of the compacted table: epsilon-freedom, reachability of
/// every surviving state inside the table, and the accepting closure.
proof fn lemma_as_dfa_shape(t: TransTable, m0: TableModel, m2: TableModel)
    requires
        t.wf(),
        m2 == m_graft(m_expand(m0)),
        t.model() == m_prune(m2),
        m0.end.len() == 1,
        m0.states.no_duplicates(),
        m0.states.len() == m0.trans.len(),
    ensures
        forall|i: int, k: int|
            0 <= i < t.trans@.len() && 0 <= k < t.trans@[i]@.len()
                ==> (#[trigger] t.trans@[i]@[k]).matches is Some,
        forall|i: int|
            0 <= i < t.states@.len() ==> m_reaches(
                t.model(),
                t.start,
                #[trigger] t.states@[i],
                false,
            ),
        forall|q: usize|
            t.states@.contains(q) && m_reaches(m0, q, m0.end[0], true) ==> t.end@.contains(q),
{
    let n = m2.states.len() as int;
    assert(m2.states == m0.states);
    assert(m2.states.no_duplicates());
    assert(m2.trans.len() == m2.states.len());
    assert forall|i: int, k: int|
        0 <= i < t.trans@.len() && 0 <= k < t.trans@[i]@.len() implies (#[trigger] t.trans@[
        i
    ]@[k]).matches is Some by {
        lemma_prune_parallel_at(m2, n, i);
        let j0 = choose|j0: int|
            0 <= j0 < n && #[trigger] m2.states[j0] == prune_states_rec(m2, n)[i] && m_keep(
                m2,
                m2.states[j0],
            ) && prune_trans_rec(m2, n)[i] == ne_models_rec(m2.trans[j0]);
        let em = t.trans@[i]@[k].model();
        assert(t.model().trans[i] == edge_models(t.trans@[i]@));
        assert(edge_models(t.trans@[i]@)[k] == em);
        assert(ne_models_rec(m2.trans[j0]).contains(em)) by {
            assert(ne_models_rec(m2.trans[j0])[k] == em);
        }
        lemma_ne_models_rec_contains(m2.trans[j0], em);
        assert(em.pred is Some);
    }
    assert forall|i: int|
        0 <= i < t.states@.len() implies m_reaches(
        t.model(),
        t.start,
        #[trigger] t.states@[i],
        false,
    ) by {
        lemma_prune_parallel_at(m2, n, i);
        let j0 = choose|j0: int|
            0 <= j0 < n && #[trigger] m2.states[j0] == prune_states_rec(m2, n)[i] && m_keep(
                m2,
                m2.states[j0],
            ) && prune_trans_rec(m2, n)[i] == ne_models_rec(m2.trans[j0]);
        assert(t.states@[i] == m2.states[j0]);
        lemma_prune_preserves_reach(m2, t.states@[i]);
        assert(t.model() == m_prune(m2));
        assert(t.start == m2.start);
    }
    assert forall|q: usize|
        t.states@.contains(q) && m_reaches(m0, q, m0.end[0], true) implies t.end@.contains(
        q,
    ) by {
        let end0 = m0.end[0];
        lemma_prune_states_rec_contains(m2, n, q);
        assert(t.model().states == prune_states_rec(m2, n));
        assert(m2.states.take(n) =~= m2.states);
        assert(m_keep(m2, q));
        let e1 = m_expand_end(m0);
        assert(m2.end == e1);
        assert(e1.contains(q)) by {
            if q == end0 {
                assert(e1[0] == end0);
            } else {
                lemma_end_adds_rec_contains(m0, end0, m0.states, q);
                lemma_concat_contains(m0.end, end_adds_rec(m0, end0, m0.states), q);
                assert(m0.states.contains(q)) by {
                    let j = choose|j: int|
                        0 <= j < m2.states.take(n).len() && m2.states.take(n)[j] == q;
                    assert(m0.states[j] == q);
                }
            }
        }
        let je = choose|je: int| 0 <= je < e1.len() && e1[je] == q;
        lemma_prune_end_contains_take(m2, m2.end.len() as int, q);
        assert(m2.end.take(m2.end.len() as int) =~= m2.end);
        assert(t.model().end == prune_end_rec(m2, m2.end.len() as int));
        assert(t.model().end.contains(q));
    }
}

/// How many listed ids are smaller than `id`: the rank of `id` once the
/// ids are sorted ascending.
pub open spec fn count_lt(s: Seq<usize>, id: usize) -> int
    decreases s.len(),
{
    if s.len() == 0 {
        0
    } else {
        count_lt(s.drop_last(), id) + (if s.last() < id {
            1int
        } else {
            0int
        })
    }
}

pub proof fn lemma_count_lt_take(s: Seq<usize>, id: usize, i: int)
    requires
        0 <= i < s.len(),
    ensures
        count_lt(s.take(i + 1), id) == count_lt(s.take(i), id) + (if s[i] < id {
            1int
        } else {
            0int
        }),
{
    assert(s.take(i + 1).drop_last() =~= s.take(i));
    assert(s.take(i + 1).last() == s[i]);
}

pub proof fn lemma_count_lt_bound(s: Seq<usize>, id: usize)
    ensures
        0 <= count_lt(s, id) <= s.len(),
    decreases s.len(),
{
    if s.len() > 0 {
        lemma_count_lt_bound(s.drop_last(), id);
    }
}

pub proof fn lemma_count_lt_member(s: Seq<usize>, i: int)
    requires
        0 <= i < s.len(),
    ensures
        count_lt(s, s[i]) < s.len(),
    decreases s.len(),
{
    if i == s.len() - 1 {
        lemma_count_lt_bound(s.drop_last(), s[i]);
    } else {
        lemma_count_lt_member(s.drop_last(), i);
        assert(s.drop_last()[i] == s[i]);
    }
}

pub proof fn lemma_count_lt_mono(s: Seq<usize>, id1: usize, id2: usize)
    requires
        id1 <= id2,
    ensures
        count_lt(s, id1) <= count_lt(s, id2),
    decreases s.len(),
{
    if s.len() > 0 {
        lemma_count_lt_mono(s.drop_last(), id1, id2);
    }
}

pub proof fn lemma_count_lt_strict(s: Seq<usize>, id1: usize, id2: usize)
    requires
        s.contains(id1),
        id1 < id2,
    ensures
        count_lt(s, id1) < count_lt(s, id2),
    decreases s.len(),
{
    if s.last() == id1 {
        lemma_count_lt_mono(s.drop_last(), id1, id2);
    } else {
        assert(s.drop_last().contains(id1)) by {
            let j = choose|j: int| 0 <= j < s.len() && s[j] == id1;
            assert(s.drop_last()[j] == id1);
        }
        lemma_count_lt_strict(s.drop_last(), id1, id2);
    }
}

/// The listed ids each replaced by their rank.
pub open spec fn renum_ids_rec(all: Seq<usize>, s: Seq<usize>) -> Seq<usize>
    decreases s.len(),
{
    if s.len() == 0 {
        Seq::empty()
    } else {
        renum_ids_rec(all, s.drop_last()).push(count_lt(all, s.last()) as usize)
    }
}

pub proof fn lemma_renum_ids_rec_len(all: Seq<usize>, s: Seq<usize>)
    ensures
        renum_ids_rec(all, s).len() == s.len(),
    decreases s.len(),
{
    if s.len() > 0 {
        lemma_renum_ids_rec_len(all, s.drop_last());
    }
}

pub proof fn lemma_renum_ids_rec_at(all: Seq<usize>, s: Seq<usize>, i: int)
    requires
        0 <= i < s.len(),
    ensures
        renum_ids_rec(all, s).len() == s.len(),
        renum_ids_rec(all, s)[i] == count_lt(all, s[i]) as usize,
    decreases s.len(),
{
    lemma_renum_ids_rec_len(all, s);
    if i == s.len() - 1 {
        lemma_renum_ids_rec_len(all, s.drop_last());
    } else {
        lemma_renum_ids_rec_at(all, s.drop_last(), i);
        assert(s.drop_last()[i] == s[i]);
    }
}

/// One edge list with each destination replaced by its rank.
pub open spec fn renum_row_rec(all: Seq<usize>, row: Seq<EdgeModel>) -> Seq<EdgeModel>
    decreases row.len(),
{
    if row.len() == 0 {
        Seq::empty()
    } else {
        renum_row_rec(all, row.drop_last()).push(
            EdgeModel {
                pred: row.last().pred,
                next: count_lt(all, (row.last().next) as usize),
            },
        )
    }
}

pub proof fn lemma_renum_row_rec_at(all: Seq<usize>, row: Seq<EdgeModel>, i: int)
    requires
        0 <= i < row.len(),
    ensures
        renum_row_rec(all, row).len() == row.len(),
        renum_row_rec(all, row)[i] == (EdgeModel {
            pred: row[i].pred,
            next: count_lt(all, (row[i].next) as usize),
        }),
    decreases row.len(),
{
    lemma_renum_row_rec_len(all, row);
    if i == row.len() - 1 {
        lemma_renum_row_rec_len(all, row.drop_last());
    } else {
        lemma_renum_row_rec_at(all, row.drop_last(), i);
        assert(row.drop_last()[i] == row[i]);
    }
}

pub proof fn lemma_renum_row_rec_len(all: Seq<usize>, row: Seq<EdgeModel>)
    ensures
        renum_row_rec(all, row).len() == row.len(),
    decreases row.len(),
{
    if row.len() > 0 {
        lemma_renum_row_rec_len(all, row.drop_last());
    }
}

/// All edge lists with destinations replaced by ranks.
pub open spec fn renum_rows_rec(all: Seq<usize>, rows: Seq<Seq<EdgeModel>>) -> Seq<
    Seq<EdgeModel>,
>
    decreases rows.len(),
{
    if rows.len() == 0 {
        Seq::empty()
    } else {
        renum_rows_rec(all, rows.drop_last()).push(renum_row_rec(all, rows.last()))
    }
}

pub proof fn lemma_renum_rows_rec_at(all: Seq<usize>, rows: Seq<Seq<EdgeModel>>, i: int)
    requires
        0 <= i < rows.len(),
    ensures
        renum_rows_rec(all, rows).len() == rows.len(),
        renum_rows_rec(all, rows)[i] == renum_row_rec(all, rows[i]),
    decreases rows.len(),
{
    lemma_renum_rows_rec_len(all, rows);
    if i == rows.len() - 1 {
        lemma_renum_rows_rec_len(all, rows.drop_last());
    } else {
        lemma_renum_rows_rec_at(all, rows.drop_last(), i);
        assert(rows.drop_last()[i] == rows[i]);
    }
}

pub proof fn lemma_renum_rows_rec_len(all: Seq<usize>, rows: Seq<Seq<EdgeModel>>)
    ensures
        renum_rows_rec(all, rows).len() == rows.len(),
    decreases rows.len(),
{
    if rows.len() > 0 {
        lemma_renum_rows_rec_len(all, rows.drop_last());
    }
}

/// The table with every state id replaced by its rank among the listed
/// ids: ids become the consecutive integers starting at zero.
pub open spec fn m_renumber(m: TableModel) -> TableModel {
    TableModel {
        start: count_lt(m.states, m.start) as usize,
        end: renum_ids_rec(m.states, m.end),
        states: renum_ids_rec(m.states, m.states),
        trans: renum_rows_rec(m.states, m.trans),
    }
}

impl TransTable {
    /// Rank of `id`: how many listed state ids are smaller.
    fn rank_of(&self, id: usize) -> (r: usize)
        ensures
            r == count_lt(self.states@, id),
    {
        let ghost s = self.states@;
        let mut r: usize = 0;
        let mut i: usize = 0;
        while i < self.states.len()
            invariant
                i <= s.len(),
                s == self.states@,
                r == count_lt(s.take(i as int), id),
                r <= i,
            decreases s.len() - i,
        {
            proof {
                lemma_count_lt_take(s, id, i as int);
                lemma_count_lt_bound(s.take(i as int), id);
            }
            if self.states[i] < id {
                r = r + 1;
            }
            i = i + 1;
        }
        proof {
            assert(s.take(s.len() as int) =~= s);
        }
        r
    }

    /// Renumber: replace every state id by its rank in ascending id order,
    /// so the ids become `0, 1, ..., n-1`.
    pub fn reset_state_mark(&mut self)
        requires
            old(self).wf(),
        ensures
            final(self).wf(),
            final(self).model() == m_renumber(old(self).model()),
            final(self).states@.len() == old(self).states@.len(),
            final(self).end@.len() == old(self).end@.len(),
            forall|i: int|
                0 <= i < final(self).states@.len() ==> (#[trigger] final(self).states@[
                    i
                ] as int) < final(self).states@.len(),
            forall|v: usize|
                (v as int) < final(self).states@.len() ==> final(self).states@.contains(v),
            final(self).trans@.len() == old(self).trans@.len(),
            forall|i: int|
                0 <= i < final(self).trans@.len() ==> (#[trigger] final(self).trans@[
                    i
                ]@).len() == old(self).trans@[i]@.len(),
            forall|i: int, k: int|
                0 <= i < final(self).trans@.len() && 0 <= k < final(self).trans@[i]@.len()
                    ==> ((#[trigger] final(self).trans@[i]@[k]).matches is Some <==> old(
                    self,
                ).trans@[i]@[k].matches is Some),
    {
        let ghost m0 = self.model();
        let ghost all = self.states@;
        let n = self.states.len();
        let mut new_states: Vec<usize> = Vec::new();
        let mut i: usize = 0;
        while i < n
            invariant
                self.wf(),
                m0 == self.model(),
                all == self.states@,
                n == all.len(),
                i <= n,
                new_states@.len() == i,
                forall|j: int|
                    0 <= j < i ==> #[trigger] new_states@[j] == count_lt(all, all[j]) as usize,
            decreases n - i,
        {
            proof {
                lemma_count_lt_bound(all, all[i as int]);
            }
            let r = self.rank_of(self.states[i]);
            new_states.push(r);
            i = i + 1;
        }
        let mut new_end: Vec<usize> = Vec::new();
        let mut i: usize = 0;
        while i < self.end.len()
            invariant
                self.wf(),
                m0 == self.model(),
                all == self.states@,
                i <= self.end@.len(),
                new_end@.len() == i,
                forall|j: int|
                    0 <= j < i ==> #[trigger] new_end@[j] == count_lt(
                        all,
                        self.end@[j],
                    ) as usize,
            decreases self.end@.len() - i,
        {
            let r = self.rank_of(self.end[i]);
            new_end.push(r);
            i = i + 1;
        }
        let mut new_trans: Vec<Vec<Edge>> = Vec::new();
        let mut i: usize = 0;
        while i < self.trans.len()
            invariant
                self.wf(),
                m0 == self.model(),
                all == self.states@,
                i <= self.trans@.len(),
                new_trans@.len() == i,
                forall|j: int|
                    0 <= j < i ==> (#[trigger] new_trans@[j]@).len() == self.trans@[j]@.len(),
                forall|j: int, k: int|
                    0 <= j < i && 0 <= k < new_trans@[j]@.len()
                        ==> (#[trigger] new_trans@[j]@[k]).model().pred == self.trans@[
                        j
                    ]@[k].model().pred && new_trans@[j]@[k].model().next == count_lt(
                        all,
                        self.trans@[j]@[k].next_node,
                    ) && new_trans@[j]@[k].next_node == (count_lt(
                        all,
                        self.trans@[j]@[k].next_node,
                    ) as usize) && new_trans@[j]@[k].wf() && ((new_trans@[j]@[k].matches
                        is Some) <==> (self.trans@[j]@[k].matches is Some)),
            decreases self.trans@.len() - i,
        {
            let mut row: Vec<Edge> = Vec::new();
            let mut k: usize = 0;
            while k < self.trans[i].len()
                invariant
                    self.wf(),
                    m0 == self.model(),
                    all == self.states@,
                    i < self.trans@.len(),
                    k <= self.trans@[i as int]@.len(),
                    row@.len() == k,
                    forall|k2: int|
                        0 <= k2 < k ==> (#[trigger] row@[k2]).model().pred == self.trans@[
                            i as int
                        ]@[k2].model().pred && row@[k2].model().next == count_lt(
                            all,
                            self.trans@[i as int]@[k2].next_node,
                        ) && row@[k2].next_node == (count_lt(
                            all,
                            self.trans@[i as int]@[k2].next_node,
                        ) as usize) && row@[k2].wf() && ((row@[k2].matches is Some) <==> (
                        self.trans@[i as int]@[k2].matches is Some)),
                decreases self.trans@[i as int]@.len() - k,
            {
                let e = &self.trans[i][k];
                proof {
                    assert(self.trans@[i as int]@[k as int].wf());
                }
                let d = self.rank_of(e.next_node());
                let ne = renum_edge(e, d);
                row.push(ne);
                k = k + 1;
            }
            new_trans.push(row);
            i = i + 1;
        }
        let ghost nt = new_trans@;
        proof {
            assert forall|j: int|
                0 <= j < self.trans@.len() implies (#[trigger] nt[j]@).len() == self.trans@[
                j
            ]@.len() by {
                assert(nt[j] == new_trans@[j]);
            }
            assert forall|j: int, k: int|
                0 <= j < self.trans@.len() && 0 <= k < nt[j]@.len() implies (#[trigger] nt[
                j
            ]@[k]).model().pred == self.trans@[j]@[k].model().pred && nt[j]@[k].model().next
                == count_lt(all, self.trans@[j]@[k].next_node) && nt[j]@[k].next_node == (
            count_lt(all, self.trans@[j]@[k].next_node) as usize) && nt[j]@[k].wf() && ((nt[
                j
            ]@[k].matches is Some) <==> (self.trans@[j]@[k].matches is Some)) by {
                assert(nt[j] == new_trans@[j]);
            }
        }
        let new_start = self.rank_of(self.start);
        self.start = new_start;
        self.states = new_states;
        self.end = new_end;
        self.trans = new_trans;
        proof {
            broadcast use vstd::seq_lib::seq_to_set_is_finite;

            let nn = all.len() as int;
            lemma_renum_ids_rec_len(all, m0.states);
            lemma_renum_ids_rec_len(all, m0.end);
            lemma_renum_rows_rec_len(all, m0.trans);
            assert forall|j: int| 0 <= j < nn implies self.states@[j] == renum_ids_rec(
                all,
                m0.states,
            )[j] by {
                lemma_renum_ids_rec_at(all, m0.states, j);
            }
            assert(self.model().states =~= m_renumber(m0).states);
            assert forall|j: int| 0 <= j < m0.end.len() implies self.end@[j] == renum_ids_rec(
                all,
                m0.end,
            )[j] by {
                lemma_renum_ids_rec_at(all, m0.end, j);
            }
            assert(self.model().end =~= m_renumber(m0).end);
            assert forall|j: int| 0 <= j < m0.trans.len() implies self.model().trans[j]
                == m_renumber(m0).trans[j] by {
                lemma_renum_rows_rec_at(all, m0.trans, j);
                lemma_renum_row_rec_len(all, m0.trans[j]);
                assert(self.model().trans[j] == edge_models(self.trans@[j]@));
                assert(self.trans@[j] == nt[j]);
                assert(nt[j]@.len() == old(self).trans@[j]@.len());
                assert(m0.trans[j] == edge_models(old(self).trans@[j]@));
                assert(self.trans@[j]@.len() == m0.trans[j].len());
                assert forall|k: int|
                    0 <= k < m0.trans[j].len() implies edge_models(self.trans@[j]@)[k]
                        == renum_row_rec(all, m0.trans[j])[k] by {
                    lemma_renum_row_rec_at(all, m0.trans[j], k);
                    assert(nt[j]@[k] == self.trans@[j]@[k]);
                    assert(m0.trans[j][k].pred == old(self).trans@[j]@[k].model().pred);
                    assert(m0.trans[j][k].next == old(self).trans@[j]@[k].next_node as int);
                    lemma_count_lt_bound(all, old(self).trans@[j]@[k].next_node);
                    assert(edge_models(self.trans@[j]@)[k] == self.trans@[j]@[k].model());
                }
                assert(edge_models(self.trans@[j]@) =~= renum_row_rec(all, m0.trans[j]));
            }
            assert(self.model().trans =~= m_renumber(m0).trans);
            assert(self.model() =~= m_renumber(m0));
            // unique and bounded ids
            assert forall|x: int, y: int|
                0 <= x < y < nn implies self.states@[x] != self.states@[y] by {
                lemma_count_lt_bound(all, all[x]);
                lemma_count_lt_bound(all, all[y]);
                if all[x] < all[y] {
                    assert(all.contains(all[x]));
                    lemma_count_lt_strict(all, all[x], all[y]);
                } else {
                    assert(all[y] < all[x]);
                    assert(all.contains(all[y]));
                    lemma_count_lt_strict(all, all[y], all[x]);
                }
            }
            assert(self.states@.no_duplicates());
            assert forall|j: int|
                0 <= j < nn implies (#[trigger] self.states@[j] as int) < nn by {
                lemma_count_lt_member(all, j);
                lemma_count_lt_bound(all, all[j]);
            }
            // the start and accepting ids are listed
            let si0 = choose|si0: int| 0 <= si0 < all.len() && all[si0] == m0.start;
            assert(self.states@[si0] == count_lt(all, m0.start) as usize) by {
                lemma_count_lt_bound(all, m0.start);
            }
            assert(self.states@.contains(self.start));
            assert forall|j: int|
                0 <= j < self.end@.len() implies self.states@.contains(
                #[trigger] self.end@[j],
            ) by {
                assert(all.contains(m0.end[j]));
                lemma_count_lt_bound(all, m0.end[j]);
                let x = choose|x: int| 0 <= x < all.len() && all[x] == m0.end[j];
                assert(self.states@[x] == count_lt(all, m0.end[j]) as usize);
            }
            assert(self.end@.no_duplicates()) by {
                assert forall|x: int, y: int|
                    0 <= x < y < self.end@.len() implies self.end@[x] != self.end@[y] by {
                    lemma_count_lt_bound(all, m0.end[x]);
                    lemma_count_lt_bound(all, m0.end[y]);
                    if m0.end[x] < m0.end[y] {
                        assert(all.contains(m0.end[x]));
                        lemma_count_lt_strict(all, m0.end[x], m0.end[y]);
                    } else {
                        assert(m0.end[x] != m0.end[y]);
                        assert(all.contains(m0.end[y]));
                        lemma_count_lt_strict(all, m0.end[y], m0.end[x]);
                    }
                }
            }
            // destinations are listed
            assert forall|j: int, k: int|
                0 <= j < self.trans@.len() && 0 <= k < self.trans@[j]@.len() implies self
                .states@.contains((#[trigger] self.trans@[j]@[k]).next_node) by {
                let d0 = old(self).trans@[j]@[k].next_node;
                assert(old(self).states@.contains(d0));
                lemma_count_lt_bound(all, d0);
                let x = choose|x: int| 0 <= x < all.len() && all[x] == d0;
                assert(self.states@[x] == count_lt(all, d0) as usize);
                assert(self.trans@[j]@[k].model().next == count_lt(all, d0));
                lemma_count_lt_bound(all, d0);
                assert(self.trans@[j]@[k].next_node == count_lt(all, d0) as usize);
            }
            assert(self.wf());
            // every value below the count occurs: the ranks fill 0..n-1
            let si = Seq::new(nn as nat, |x: int| self.states@[x] as int);
            assert(si.no_duplicates()) by {
                assert forall|x: int, y: int|
                    0 <= x < nn && 0 <= y < nn && x != y implies si[x] != si[y] by {
                    assert(self.states@[x] != self.states@[y] || x == y);
                }
            }
            si.unique_seq_to_set();
            vstd::set_lib::lemma_int_range(0, nn);
            assert(si.to_set().subset_of(vstd::set_lib::set_int_range(0, nn))) by {
                assert forall|v: int|
                    si.to_set().contains(v) implies vstd::set_lib::set_int_range(0, nn)
                        .contains(v) by {
                    let x = choose|x: int| 0 <= x < si.len() && si[x] == v;
                    assert((self.states@[x] as int) < nn);
                }
            }
            vstd::set_lib::lemma_subset_equality(
                si.to_set(),
                vstd::set_lib::set_int_range(0, nn),
            );
            assert forall|v: usize|
                (v as int) < nn implies self.states@.contains(v) by {
                assert(vstd::set_lib::set_int_range(0, nn).contains(v as int));
                assert(si.to_set().contains(v as int));
                assert(si.contains(v as int));
                let x = choose|x: int| 0 <= x < si.len() && si[x] == v as int;
                assert(self.states@[x] == v);
            }
        }
    }
}

/// One edge with the same predicate and the given destination.
fn renum_edge(e: &Edge, d: usize) -> (r: Edge)
    requires
        e.wf(),
    ensures
        r.model().pred == e.model().pred,
        r.model().next == d as int,
        r.next_node == d,
        r.wf(),
        (r.matches is Some) <==> (e.matches is Some),
{
    match &e.matches {
        Option::Some(mm) => Edge { matches: Option::Some(mm.clone()), next_node: d },
        Option::None => Edge { matches: Option::None, next_node: d },
    }
}

/// A step survives the renumbering, with both endpoints replaced by their
/// ranks.
pub proof fn lemma_renumber_step(m: TableModel, a: usize, b: usize, eps: bool)
    requires
        m.states.len() <= usize::MAX,
        m_step(m, a, b, eps),
    ensures
        m_step(
            m_renumber(m),
            count_lt(m.states, a) as usize,
            count_lt(m.states, b) as usize,
            eps,
        ),
{
    let (i, k): (int, int) = choose|i: int, k: int|
        {
            &&& 0 <= i < m.states.len()
            &&& m.states[i] == a
            &&& i < m.trans.len()
            &&& 0 <= k < m.trans[i].len()
            &&& (if eps {
                (#[trigger] m.trans[i][k]).pred is None
            } else {
                m.trans[i][k].pred is Some
            })
            &&& m.trans[i][k].next == b as int
        };
    let mr = m_renumber(m);
    lemma_renum_ids_rec_at(m.states, m.states, i);
    assert(mr.states[i] == count_lt(m.states, a) as usize);
    lemma_renum_rows_rec_at(m.states, m.trans, i);
    lemma_renum_row_rec_at(m.states, m.trans[i], k);
    assert(mr.trans[i][k].pred == m.trans[i][k].pred);
    assert(mr.trans[i][k].next == count_lt(m.states, b));
    lemma_count_lt_bound(m.states, b);
    assert(mr.trans[i][k].next == (count_lt(m.states, b) as usize) as int);
    assert(m_step(mr, count_lt(m.states, a) as usize, count_lt(m.states, b) as usize, eps));
}

/// Reachability survives the renumbering.
pub proof fn lemma_renumber_preserves_reach(m: TableModel, q: usize, eps: bool)
    requires
        m.states.len() <= usize::MAX,
        m_reaches(m, m.start, q, eps),
    ensures
        m_reaches(
            m_renumber(m),
            m_renumber(m).start,
            count_lt(m.states, q) as usize,
            eps,
        ),
{
    let p = choose|p: Seq<usize>| m_path(m, p, eps) && p.first() == m.start && p.last() == q;
    let p2 = Seq::new(p.len(), |x: int| count_lt(m.states, p[x]) as usize);
    assert forall|x: int| 0 <= x < p2.len() - 1 implies m_step(
        m_renumber(m),
        #[trigger] p2[x],
        p2[x + 1],
        eps,
    ) by {
        assert(m_step(m, p[x], p[x + 1], eps));
        lemma_renumber_step(m, p[x], p[x + 1], eps);
    }
    assert(m_path(m_renumber(m), p2, eps));
    assert(p2.first() == count_lt(m.states, m.start) as usize);
    assert(p2.last() == count_lt(m.states, q) as usize);
}

impl TransTable {
    /// Compact the table: eliminate epsilon edges, prune unreachable
    /// states, and renumber the survivors consecutively from zero.  After
    /// this, no edge carries the epsilon predicate, every state is
    /// reachable from the start along the remaining edges, and the state
    /// ids are exactly `0, 1, ..., n-1`.
    pub fn compact(&mut self)
        requires
            old(self).wf(),
            old(self).end@.len() == 1,
        ensures
            final(self).wf(),
            final(self).model() == m_renumber(m_as_dfa(old(self).model())),
            forall|i: int, k: int|
                0 <= i < final(self).trans@.len() && 0 <= k < final(self).trans@[i]@.len()
                    ==> (#[trigger] final(self).trans@[i]@[k]).matches is Some,
            forall|i: int|
                0 <= i < final(self).states@.len() ==> (#[trigger] final(self).states@[
                    i
                ] as int) < final(self).states@.len(),
            forall|v: usize|
                (v as int) < final(self).states@.len() ==> final(self).states@.contains(v),
            forall|i: int|
                0 <= i < final(self).states@.len() ==> m_reaches(
                    final(self).model(),
                    final(self).start,
                    #[trigger] final(self).states@[i],
                    false,
                ),
    {
        let ghost m0 = self.model();
        self.as_dfa();
        let ghost mid = self.model();
        let ghost t_mid = *self;
        self.reset_state_mark();
        proof {
            assert(mid == m_as_dfa(m0));
            assert(self.model() == m_renumber(mid));
            assert forall|i: int, k: int|
                0 <= i < self.trans@.len() && 0 <= k < self.trans@[i]@.len() implies (
            #[trigger] self.trans@[i]@[k]).matches is Some by {
                assert(t_mid.trans@[i]@[k].matches is Some);
            }
            assert forall|i: int|
                0 <= i < self.states@.len() implies m_reaches(
                self.model(),
                self.start,
                #[trigger] self.states@[i],
                false,
            ) by {
                assert(self.states@.len() == t_mid.states@.len());
                assert(mid.states.len() == t_mid.states@.len());
                assert(t_mid.states@.len() <= usize::MAX) by {
                    broadcast use vstd::std_specs::vec::axiom_spec_len;

                    assert(vstd::std_specs::vec::spec_vec_len(&t_mid.states)
                        == t_mid.states@.len());
                }
                assert(m_reaches(mid, t_mid.start, t_mid.states@[i], false));
                assert(mid.start == t_mid.start);
                lemma_renumber_preserves_reach(mid, t_mid.states@[i], false);
                lemma_renum_ids_rec_at(mid.states, mid.states, i);
                assert(self.states@[i] == count_lt(mid.states, mid.states[i]) as usize);
                assert(mid.states[i] == t_mid.states@[i]);
                assert(self.start == m_renumber(mid).start);
            }
        }
    }
}

/// Whether a row carries two edges reported as overlapping.
pub open spec fn m_row_ambiguous(row: Seq<EdgeModel>) -> bool {
    exists|x: int, y: int|
        0 <= x < y < row.len() && #[trigger] edge_model_intersect(row[x], row[y])
}

/// Relies on itertools::Itertools::combinations: the two-element
/// combinations of `0..n` are yielded once each, the smaller index first.
#[verifier::external_body]
fn index_pairs(n: usize) -> (r: Vec<(usize, usize)>)
    ensures
        forall|t: int| 0 <= t < r@.len() ==> (#[trigger] r@[t]).0 < r@[t].1 < n,
        forall|x: usize, y: usize| x < y < n ==> r@.contains((x, y)),
{
    (0..n).combinations(2).map(|p| (p[0], p[1])).collect()
}

/// Whether two edges of `row` are reported as overlapping.
fn row_has_overlap(row: &Vec<Edge>) -> (r: bool)
    requires
        forall|k: int| 0 <= k < row@.len() ==> (#[trigger] row@[k]).wf(),
    ensures
        r == m_row_ambiguous(edge_models(row@)),
{
    let ghost rm = edge_models(row@);
    let pairs = index_pairs(row.len());
    let mut t: usize = 0;
    while t < pairs.len()
        invariant
            rm == edge_models(row@),
            rm.len() == row@.len(),
            t <= pairs@.len(),
            forall|k: int| 0 <= k < row@.len() ==> (#[trigger] row@[k]).wf(),
            forall|t2: int| 0 <= t2 < pairs@.len() ==> (#[trigger] pairs@[t2]).0 < pairs@[
                t2
            ].1 < row@.len(),
            forall|t2: int|
                0 <= t2 < t ==> !(#[trigger] edge_model_intersect(
                    rm[pairs@[t2].0 as int],
                    rm[pairs@[t2].1 as int],
                )),
        decreases pairs@.len() - t,
    {
        let a = pairs[t].0;
        let b = pairs[t].1;
        proof {
            assert(rm[a as int] == row@[a as int].model());
            assert(rm[b as int] == row@[b as int].model());
        }
        let hit = row[a].intersect(&row[b]);
        if hit {
            proof {
                assert(edge_model_intersect(rm[a as int], rm[b as int]));
            }
            return true;
        }
        t = t + 1;
    }
    proof {
        assert forall|x: int, y: int|
            0 <= x < y < rm.len() implies !(edge_model_intersect(rm[x], rm[y])) by {
            assert(pairs@.contains((x as usize, y as usize)));
            let t2 = choose|t2: int|
                0 <= t2 < pairs@.len() && pairs@[t2] == (x as usize, y as usize);
            assert(!edge_model_intersect(rm[pairs@[t2].0 as int], rm[pairs@[t2].1 as int]));
        }
    }
    false
}

impl TransTable {
    /// Whether any state carries two edges reported as overlapping: on such
    /// a table, first-match resolution may commit to the wrong edge and the
    /// matcher can recognize a proper subset of the intended language.
    pub fn has_overlapping_edges(&self) -> (r: bool)
        requires
            self.wf(),
        ensures
            r == exists|i: int|
                0 <= i < self.model().trans.len() && m_row_ambiguous(
                    #[trigger] self.model().trans[i],
                ),
    {
        let ghost m = self.model();
        let mut i: usize = 0;
        while i < self.trans.len()
            invariant
                self.wf(),
                m == self.model(),
                i <= self.trans@.len(),
                forall|j: int| 0 <= j < i ==> !m_row_ambiguous(#[trigger] m.trans[j]),
            decreases self.trans@.len() - i,
        {
            proof {
                assert(m.trans[i as int] == edge_models(self.trans@[i as int]@));
            }
            if row_has_overlap(&self.trans[i]) {
                return true;
            }
            i = i + 1;
        }
        false
    }
}

} // verus!
