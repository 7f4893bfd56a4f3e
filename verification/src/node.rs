//! Edge predicates, edges, nodes, and the NFA graph arena.
//!
//! An NFA state is a plain integer id allocated from an [`IdAlloc`]; a graph is
//! a flat vector of nodes, each holding its outgoing edges.  Edges carry an
//! optional predicate over one input byte: `None` is the epsilon predicate,
//! consumed without reading input.

use vstd::prelude::*;

verus! {

/// Mathematical picture of a predicate allowed inside a negation: a single
/// byte or an inclusive byte range.
pub enum AtomModel {
    Char(u8),
    Range(u8, u8),
}

/// Mathematical picture of an edge predicate.
#[verifier::ext_equal]
pub enum PredModel {
    Char(u8),
    Range(u8, u8),
    Neg(Seq<AtomModel>),
}

/// Mathematical picture of an edge: an optional predicate (`None` is
/// epsilon) and the id of the destination state.
#[verifier::ext_equal]
pub struct EdgeModel {
    pub pred: Option<PredModel>,
    pub next: int,
}

/// Whether an atom accepts the byte `c`.
pub open spec fn atom_model_matches(a: AtomModel, c: u8) -> bool {
    match a {
        AtomModel::Char(ch) => c == ch,
        AtomModel::Range(s, e) => s <= c && c <= e,
    }
}

/// Whether a predicate accepts the byte `c`: a negation accepts exactly the
/// bytes that none of its atoms accept.
pub open spec fn pred_model_matches(p: PredModel, c: u8) -> bool {
    match p {
        PredModel::Char(ch) => c == ch,
        PredModel::Range(s, e) => s <= c && c <= e,
        PredModel::Neg(atoms) => forall|i: int|
            0 <= i < atoms.len() ==> !atom_model_matches(#[trigger] atoms[i], c),
    }
}

/// Whether an edge accepts the byte `c`; an epsilon edge accepts no byte.
pub open spec fn edge_model_matches(e: EdgeModel, c: u8) -> bool {
    match e.pred {
        Option::None => false,
        Option::Some(p) => pred_model_matches(p, c),
    }
}

/// Predicate attached to a non-epsilon edge: one byte, one inclusive byte
/// range, or the complement of a list of bytes and ranges.  A negation never
/// nests inside another negation.
#[derive(Debug)]
pub enum EdgeMatches {
    Character(u8),
    CharacterRange(u8, u8),
    Not(Vec<EdgeMatches>),
}

/// The atom a predicate stands for, meaningful only when `is_atom` holds.
pub open spec fn atom_model_of(m: EdgeMatches) -> AtomModel {
    match m {
        EdgeMatches::Character(c) => AtomModel::Char(c),
        EdgeMatches::CharacterRange(s, e) => AtomModel::Range(s, e),
        EdgeMatches::Not(_) => AtomModel::Char(0),
    }
}

impl EdgeMatches {
    /// A predicate that may stand inside a negation list.
    pub open spec fn is_atom(self) -> bool {
        match self {
            EdgeMatches::Character(_) => true,
            EdgeMatches::CharacterRange(_, _) => true,
            EdgeMatches::Not(_) => false,
        }
    }

    /// Well-formed: a negation holds atoms only.
    pub open spec fn wf(self) -> bool {
        match self {
            EdgeMatches::Not(list) => forall|i: int|
                0 <= i < list@.len() ==> (#[trigger] list@[i]).is_atom(),
            _ => true,
        }
    }

    /// The mathematical predicate this value stands for.
    pub open spec fn model(self) -> PredModel {
        match self {
            EdgeMatches::Character(c) => PredModel::Char(c),
            EdgeMatches::CharacterRange(s, e) => PredModel::Range(s, e),
            EdgeMatches::Not(list) => PredModel::Neg(
                list@.map_values(|a: EdgeMatches| atom_model_of(a)),
            ),
        }
    }

    /// Whether this predicate accepts the byte `c`.
    pub fn match_character(&self, c: u8) -> (r: bool)
        requires
            self.wf(),
        ensures
            r == pred_model_matches(self.model(), c),
    {
        match self {
            EdgeMatches::Character(ch) => c == *ch,
            EdgeMatches::CharacterRange(s, e) => *s <= c && c <= *e,
            EdgeMatches::Not(list) => {
                let hit = any_atom_matches(list, c);
                proof {
                    if let PredModel::Neg(atoms) = self.model() {
                        if hit {
                            let i = choose|i: int|
                                0 <= i < list@.len() && atom_model_matches(
                                    atom_model_of(#[trigger] list@[i]),
                                    c,
                                );
                            assert(atoms[i] == atom_model_of(list@[i]));
                        } else {
                            assert forall|i: int|
                                0 <= i < atoms.len() implies !atom_model_matches(
                                #[trigger] atoms[i],
                                c,
                            ) by {
                                assert(atoms[i] == atom_model_of(list@[i]));
                                assert(!atom_model_matches(atom_model_of(list@[i]), c));
                            }
                        }
                    }
                }
                !hit
            },
        }
    }

    /// Whether this predicate and `rhs` are reported as overlapping.  Two
    /// negations always are; a negation against a range is tested over the
    /// half-open range only, mirroring the table construction's conservative
    /// check.
    pub open spec fn spec_intersect(self, rhs: EdgeMatches) -> bool {
        pred_model_intersect(self.model(), rhs.model())
    }

    /// Whether this predicate and `rhs` are reported as overlapping.
    pub fn intersect(&self, rhs: &EdgeMatches) -> (r: bool)
        requires
            self.wf(),
            rhs.wf(),
        ensures
            r == self.spec_intersect(*rhs),
    {
        match (self, rhs) {
            (EdgeMatches::Not(_), EdgeMatches::Not(_)) => true,
            (EdgeMatches::Character(c), _) => rhs.match_character(*c),
            (EdgeMatches::CharacterRange(ls, le), EdgeMatches::CharacterRange(rs, re)) =>
                range_intersect(*ls, *le, *rs, *re),
            (EdgeMatches::Not(_), EdgeMatches::CharacterRange(s, e)) =>
                covers_half_open_range(self, *s, *e),
            (EdgeMatches::CharacterRange(_, _), EdgeMatches::Character(c)) =>
                self.match_character(*c),
            (EdgeMatches::Not(_), EdgeMatches::Character(c)) => self.match_character(*c),
            (EdgeMatches::CharacterRange(s, e), EdgeMatches::Not(_)) =>
                covers_half_open_range(rhs, *s, *e),
        }
    }
}

/// The overlap report at the model level, case by case as the executable
/// check decides it.
pub open spec fn pred_model_intersect(a: PredModel, b: PredModel) -> bool {
    match (a, b) {
        (PredModel::Neg(_), PredModel::Neg(_)) => true,
        (PredModel::Char(c), _) => pred_model_matches(b, c),
        (PredModel::Range(ls, le), PredModel::Range(rs, re)) =>
            spec_range_intersect(ls, le, rs, re),
        (PredModel::Neg(_), PredModel::Range(s, e)) => forall|x: u8|
            s <= x < e ==> pred_model_matches(a, x),
        (PredModel::Range(_, _), PredModel::Char(c)) => pred_model_matches(a, c),
        (PredModel::Neg(_), PredModel::Char(c)) => pred_model_matches(a, c),
        (PredModel::Range(s, e), PredModel::Neg(_)) => forall|x: u8|
            s <= x < e ==> pred_model_matches(b, x),
    }
}

/// Whether the closed ranges `[ls, le]` and `[rs, re]` share an endpoint
/// ordering that makes them overlap.
pub open spec fn spec_range_intersect(ls: u8, le: u8, rs: u8, re: u8) -> bool {
    (rs <= ls && ls <= re) || (rs <= le && le <= re) || (ls <= rs && rs <= le) || (ls <= re
        && re <= le)
}

fn range_intersect(ls: u8, le: u8, rs: u8, re: u8) -> (r: bool)
    ensures
        r == spec_range_intersect(ls, le, rs, re),
{
    (rs <= ls && ls <= re) || (rs <= le && le <= re) || (ls <= rs && rs <= le) || (ls <= re
        && re <= le)
}

/// Whether `p` (an atom) accepts the byte `c`.
fn atom_match_character(p: &EdgeMatches, c: u8) -> (r: bool)
    requires
        p.is_atom(),
    ensures
        r == atom_model_matches(atom_model_of(*p), c),
{
    match p {
        EdgeMatches::Character(ch) => c == *ch,
        EdgeMatches::CharacterRange(s, e) => *s <= c && c <= *e,
        EdgeMatches::Not(_) => false,
    }
}

/// Whether any atom in `list` accepts the byte `c`.
fn any_atom_matches(list: &Vec<EdgeMatches>, c: u8) -> (r: bool)
    requires
        forall|i: int| 0 <= i < list@.len() ==> (#[trigger] list@[i]).is_atom(),
    ensures
        r == exists|i: int|
            0 <= i < list@.len() && atom_model_matches(atom_model_of(#[trigger] list@[i]), c),
{
    let mut i: usize = 0;
    while i < list.len()
        invariant
            i <= list@.len(),
            forall|j: int| 0 <= j < list@.len() ==> (#[trigger] list@[j]).is_atom(),
            forall|j: int| 0 <= j < i
                ==> !atom_model_matches(atom_model_of(#[trigger] list@[j]), c),
        decreases list@.len() - i,
    {
        if atom_match_character(&list[i], c) {
            return true;
        }
        i = i + 1;
    }
    false
}

/// Whether `p` accepts every byte of the half-open range `[s, e)`.
fn covers_half_open_range(p: &EdgeMatches, s: u8, e: u8) -> (r: bool)
    requires
        p.wf(),
    ensures
        r == forall|x: u8| s <= x < e ==> pred_model_matches(p.model(), x),
{
    let mut x: u8 = s;
    while x < e
        invariant
            p.wf(),
            s <= x,
            forall|y: u8| s <= y < x ==> pred_model_matches(p.model(), y),
        decreases e - x,
    {
        if !p.match_character(x) {
            proof {
                assert(s <= x && x < e && !pred_model_matches(p.model(), x));
            }
            return false;
        }
        x = x + 1;
    }
    true
}

/// Faithful copy of a predicate.
fn clone_pred(p: &EdgeMatches) -> (r: EdgeMatches)
    ensures
        r.model() == p.model(),
        p.wf() ==> r.wf(),
    decreases *p,
{
    match p {
        EdgeMatches::Character(c) => EdgeMatches::Character(*c),
        EdgeMatches::CharacterRange(s, e) => EdgeMatches::CharacterRange(*s, *e),
        EdgeMatches::Not(list) => {
            let copied = clone_pred_vec(list);
            let r = EdgeMatches::Not(copied);
            proof {
                assert forall|i: int| 0 <= i < list@.len() implies atom_model_of(copied@[i])
                    == atom_model_of(list@[i]) && (list@[i].is_atom()
                    ==> copied@[i].is_atom()) by {
                    assert(copied@[i].model() == list@[i].model());
                }
                assert(r.model() =~= p.model());
            }
            r
        },
    }
}

/// Faithful copy of a predicate list.
fn clone_pred_vec(list: &Vec<EdgeMatches>) -> (r: Vec<EdgeMatches>)
    ensures
        r@.len() == list@.len(),
        forall|i: int| 0 <= i < list@.len()
            ==> (#[trigger] r@[i]).model() == list@[i].model()
                && (list@[i].wf() ==> r@[i].wf()),
    decreases list@,
{
    let mut r: Vec<EdgeMatches> = Vec::new();
    let mut i: usize = 0;
    while i < list.len()
        invariant
            i <= list@.len(),
            r@.len() == i,
            forall|j: int| 0 <= j < i
                ==> (#[trigger] r@[j]).model() == list@[j].model()
                    && (list@[j].wf() ==> r@[j].wf()),
        decreases list@.len() - i,
    {
        let c = clone_pred(&list[i]);
        r.push(c);
        i = i + 1;
    }
    r
}

impl Clone for EdgeMatches {
    /// Copy with the same mathematical predicate.
    fn clone(&self) -> (r: Self)
        ensures
            r.model() == self.model(),
            self.wf() ==> r.wf(),
    {
        clone_pred(self)
    }
}

/// Sum of a sequence of integers.
pub open spec fn seq_int_sum(s: Seq<int>) -> int
    decreases s.len(),
{
    if s.len() == 0 {
        0
    } else {
        seq_int_sum(s.drop_last()) + s.last()
    }
}

pub proof fn lemma_seq_int_sum_take(s: Seq<int>, i: int)
    requires
        0 <= i < s.len(),
    ensures
        seq_int_sum(s.take(i + 1)) == seq_int_sum(s.take(i)) + s[i],
{
    assert(s.take(i + 1).drop_last() =~= s.take(i));
    assert(s.take(i + 1).last() == s[i]);
}

pub proof fn lemma_seq_int_sum_prefix_bound(s: Seq<int>, i: int)
    requires
        0 <= i <= s.len(),
        forall|j: int| 0 <= j < s.len() ==> s[j] >= 0,
    ensures
        seq_int_sum(s.take(i)) <= seq_int_sum(s),
    decreases s.len() - i,
{
    if i == s.len() {
        assert(s.take(i) =~= s);
    } else {
        lemma_seq_int_sum_take(s, i);
        lemma_seq_int_sum_prefix_bound(s, i + 1);
    }
}

/// The mathematical picture of one edge list.
pub open spec fn edge_models(v: Seq<Edge>) -> Seq<EdgeModel> {
    v.map_values(|e: Edge| e.model())
}

/// An edge of the automaton: an optional predicate (`None` is the epsilon
/// predicate) and the id of the destination state.
#[derive(Debug)]
pub struct Edge {
    pub matches: Option<EdgeMatches>,
    pub next_node: usize,
}

/// The overlap report for two edges: an epsilon edge overlaps nothing.
pub open spec fn edge_model_intersect(a: EdgeModel, b: EdgeModel) -> bool {
    match (a.pred, b.pred) {
        (Option::Some(x), Option::Some(y)) => pred_model_intersect(x, y),
        _ => false,
    }
}

impl Edge {
    /// The mathematical picture of this edge.
    pub open spec fn model(self) -> EdgeModel {
        EdgeModel {
            pred: match self.matches {
                Option::None => Option::None,
                Option::Some(m) => Option::Some(m.model()),
            },
            next: self.next_node as int,
        }
    }

    pub open spec fn wf(self) -> bool {
        match self.matches {
            Option::Some(m) => m.wf(),
            Option::None => true,
        }
    }

    /// An epsilon edge to `next_node`: consumed without reading input.
    pub fn epsilon(next_node: usize) -> (r: Edge)
        ensures
            r.matches is None,
            r.next_node == next_node,
            r.wf(),
    {
        Edge { matches: Option::None, next_node }
    }

    pub fn new(dest: usize, matches: Option<EdgeMatches>) -> (r: Edge)
        ensures
            r.matches == matches,
            r.next_node == dest,
    {
        Edge { matches, next_node: dest }
    }

    pub fn matches(&self) -> (r: &Option<EdgeMatches>)
        ensures
            *r == self.matches,
    {
        &self.matches
    }

    pub fn next_node(&self) -> (r: usize)
        ensures
            r == self.next_node,
    {
        self.next_node
    }

    /// Whether this edge accepts the byte `c`; an epsilon edge accepts none.
    pub fn match_character(&self, c: u8) -> (r: bool)
        requires
            self.wf(),
        ensures
            r == edge_model_matches(self.model(), c),
    {
        match &self.matches {
            Option::Some(m) => m.match_character(c),
            Option::None => false,
        }
    }

    /// Whether this edge and `e` are reported as overlapping.
    pub fn intersect(&self, e: &Edge) -> (r: bool)
        requires
            self.wf(),
            e.wf(),
        ensures
            r == edge_model_intersect(self.model(), e.model()),
    {
        match (&self.matches, &e.matches) {
            (Option::Some(lhs), Option::Some(rhs)) => lhs.intersect(rhs),
            _ => false,
        }
    }
}

impl Clone for Edge {
    /// Copy with the same mathematical picture.
    fn clone(&self) -> (r: Self)
        ensures
            r.model() == self.model(),
            self.wf() ==> r.wf(),
    {
        Edge {
            matches: match &self.matches {
                Option::None => Option::None,
                Option::Some(m) => Option::Some(m.clone()),
            },
            next_node: self.next_node,
        }
    }
}

/// Allocator for fresh state ids within one compilation.
pub struct IdAlloc {
    pub next: usize,
}

impl IdAlloc {
    pub fn new() -> (r: IdAlloc)
        ensures
            r.next == 0,
    {
        IdAlloc { next: 0 }
    }

    /// Hand out the next id, never the same one twice.
    pub fn fresh(&mut self) -> (r: usize)
        requires
            old(self).next < usize::MAX,
        ensures
            r == old(self).next,
            final(self).next == old(self).next + 1,
    {
        let r = self.next;
        self.next = self.next + 1;
        r
    }
}

/// A state of the automaton: its id and its outgoing edges in insertion
/// order.
#[derive(Debug)]
pub struct Node {
    pub id: usize,
    pub edges: Vec<Edge>,
}

impl Node {
    pub open spec fn wf(self) -> bool {
        forall|i: int| 0 <= i < self.edges@.len() ==> (#[trigger] self.edges@[i]).wf()
    }

    /// A node with a fresh id and no edges.
    pub fn new(ids: &mut IdAlloc) -> (r: Node)
        requires
            old(ids).next < usize::MAX,
        ensures
            r.id == old(ids).next,
            r.edges@.len() == 0,
            final(ids).next == old(ids).next + 1,
    {
        Node { id: ids.fresh(), edges: Vec::new() }
    }

    pub fn from_id(id: usize) -> (r: Node)
        ensures
            r.id == id,
            r.edges@.len() == 0,
    {
        Node { id, edges: Vec::new() }
    }

    pub fn edge_count(&self) -> (r: usize)
        ensures
            r == self.edges@.len(),
    {
        self.edges.len()
    }

    pub fn id(&self) -> (r: usize)
        ensures
            r == self.id,
    {
        self.id
    }

    /// Append an edge to `dest` guarded by `matches`.
    pub fn connect(&mut self, dest: usize, matches: Option<EdgeMatches>)
        ensures
            final(self).id == old(self).id,
            final(self).edges@ == old(self).edges@.push(
                Edge { matches: matches, next_node: dest },
            ),
    {
        let e = Edge::new(dest, matches);
        proof {
            assert(e == (Edge { matches: e.matches, next_node: dest }));
        }
        self.append_edge(e);
    }

    pub fn append_edge(&mut self, edge: Edge)
        ensures
            final(self).id == old(self).id,
            final(self).edges@ == old(self).edges@.push(edge),
    {
        self.edges.push(edge);
    }

    pub fn edges(&self) -> (r: &Vec<Edge>)
        ensures
            *r == self.edges,
    {
        &self.edges
    }
}

/// The NFA fragment: a flat arena of nodes together with the ids of its
/// start and end states.  Composition concatenates arenas; edges refer to
/// destinations by id, so cycles are plain data.
#[derive(Debug)]
pub struct NFAGraph {
    pub nodes: Vec<Node>,
    pub start: usize,
    pub end: usize,
}

impl NFAGraph {
    /// Node ids strictly increase along the arena, so each id names at most
    /// one node.
    pub open spec fn ids_increasing(self) -> bool {
        forall|i: int, j: int|
            0 <= i < j < self.nodes@.len() ==> (#[trigger] self.nodes@[i]).id
                < (#[trigger] self.nodes@[j]).id
    }

    /// Some node of the arena carries the id.
    pub open spec fn contains_id(self, id: int) -> bool {
        exists|i: int| 0 <= i < self.nodes@.len() && (#[trigger] self.nodes@[i]).id == id
    }

    /// Every edge destination names a node of the arena.
    pub open spec fn edges_closed(self) -> bool {
        forall|i: int, k: int|
            0 <= i < self.nodes@.len() && 0 <= k < self.nodes@[i].edges@.len()
                ==> self.contains_id((#[trigger] self.nodes@[i].edges@[k]).next_node as int)
    }

    pub open spec fn nodes_wf(self) -> bool {
        forall|i: int| 0 <= i < self.nodes@.len() ==> (#[trigger] self.nodes@[i]).wf()
    }

    /// Every node id lies in `[lo, hi)`.
    pub open spec fn ids_in_range(self, lo: int, hi: int) -> bool {
        forall|i: int| 0 <= i < self.nodes@.len() ==> lo <= (#[trigger] self.nodes@[i]).id < hi
    }

    /// A complete fragment: unique ids, start and end present, destinations
    /// closed, predicates well-formed.
    pub open spec fn wf(self) -> bool {
        &&& self.ids_increasing()
        &&& self.contains_id(self.start as int)
        &&& self.contains_id(self.end as int)
        &&& self.edges_closed()
        &&& self.nodes_wf()
    }

    /// The edge counts of the nodes, in arena order.
    pub open spec fn edge_lens(self) -> Seq<int> {
        self.nodes@.map_values(|n: Node| n.edges@.len() as int)
    }

    /// A fragment of two fresh unconnected states.
    pub fn new(ids: &mut IdAlloc) -> (r: NFAGraph)
        requires
            old(ids).next + 2 <= usize::MAX,
        ensures
            final(ids).next == old(ids).next + 2,
            r.start == old(ids).next,
            r.end == old(ids).next + 1,
            r.nodes@.len() == 2,
            r.nodes@[0].id == r.start,
            r.nodes@[1].id == r.end,
            r.nodes@[0].edges@.len() == 0,
            r.nodes@[1].edges@.len() == 0,
            r.wf(),
            r.ids_in_range(old(ids).next as int, old(ids).next + 2),
    {
        let start = Node::new(ids);
        let end = Node::new(ids);
        let start_id = start.id;
        let end_id = end.id;
        let mut nodes: Vec<Node> = Vec::new();
        nodes.push(start);
        nodes.push(end);
        let r = NFAGraph { nodes, start: start_id, end: end_id };
        proof {
            assert(r.nodes@[0].id == r.start);
            assert(r.nodes@[1].id == r.end);
        }
        r
    }

    /// A fragment of the two given nodes.
    pub fn from_node(start: Node, end: Node) -> (r: NFAGraph)
        ensures
            r.start == start.id,
            r.end == end.id,
            r.nodes@.len() == 2,
            r.nodes@[0] == start,
            r.nodes@[1] == end,
    {
        let start_id = start.id;
        let end_id = end.id;
        let mut nodes: Vec<Node> = Vec::new();
        nodes.push(start);
        nodes.push(end);
        NFAGraph { nodes, start: start_id, end: end_id }
    }

    /// A fragment of two fresh unconnected states carrying the given ids.
    pub fn from_id(start: usize, end: usize) -> (r: NFAGraph)
        ensures
            r.start == start,
            r.end == end,
            r.nodes@.len() == 2,
            r.nodes@[0].id == start,
            r.nodes@[1].id == end,
            r.nodes@[0].edges@.len() == 0,
            r.nodes@[1].edges@.len() == 0,
    {
        NFAGraph::from_node(Node::from_id(start), Node::from_id(end))
    }

    /// Total number of edges in the arena.
    pub fn edge_count(&self) -> (r: usize)
        requires
            seq_int_sum(self.edge_lens()) <= usize::MAX,
        ensures
            r == seq_int_sum(self.edge_lens()),
    {
        let ghost lens = self.edge_lens();
        let mut sum: usize = 0;
        let mut i: usize = 0;
        while i < self.nodes.len()
            invariant
                i <= self.nodes@.len(),
                lens == self.edge_lens(),
                lens.len() == self.nodes@.len(),
                forall|j: int| 0 <= j < lens.len() ==> #[trigger] lens[j] >= 0,
                seq_int_sum(lens) <= usize::MAX,
                sum == seq_int_sum(lens.take(i as int)),
            decreases self.nodes@.len() - i,
        {
            proof {
                lemma_seq_int_sum_take(lens, i as int);
                lemma_seq_int_sum_prefix_bound(lens, i as int + 1);
            }
            sum = sum + self.nodes[i].edge_count();
            i = i + 1;
        }
        proof {
            assert(lens.take(lens.len() as int) =~= lens);
        }
        sum
    }

    /// The start and end nodes.
    pub fn nodes(&self) -> (r: (&Node, &Node))
        requires
            self.contains_id(self.start as int),
            self.contains_id(self.end as int),
        ensures
            r.0.id == self.start,
            r.1.id == self.end,
    {
        let i = self.index_of_id(self.start);
        let j = self.index_of_id(self.end);
        (&self.nodes[i], &self.nodes[j])
    }

    /// Index of the first node carrying `id`.
    pub fn index_of_id(&self, id: usize) -> (r: usize)
        requires
            self.contains_id(id as int),
        ensures
            r < self.nodes@.len(),
            self.nodes@[r as int].id == id,
            forall|j: int| 0 <= j < r ==> (#[trigger] self.nodes@[j]).id != id,
    {
        let mut i: usize = 0;
        while i < self.nodes.len()
            invariant
                i <= self.nodes@.len(),
                forall|j: int| 0 <= j < i ==> (#[trigger] self.nodes@[j]).id != id,
            decreases self.nodes@.len() - i,
        {
            if self.nodes[i].id() == id {
                return i;
            }
            i = i + 1;
        }
        proof {
            let k = choose|k: int|
                0 <= k < self.nodes@.len() && (#[trigger] self.nodes@[k]).id == id;
            assert(false);
        }
        0
    }

    pub fn start_id(&self) -> (r: usize)
        ensures
            r == self.start,
    {
        self.start
    }

    pub fn end_id(&self) -> (r: usize)
        ensures
            r == self.end,
    {
        self.end
    }

    /// Merge a child fragment's arena into this one; start and end stay.
    pub fn append_sub_graph(&mut self, g: NFAGraph)
        ensures
            final(self).nodes@ == old(self).nodes@ + g.nodes@,
            final(self).start == old(self).start,
            final(self).end == old(self).end,
    {
        let mut moved = g;
        self.nodes.append(&mut moved.nodes);
    }

    /// Append an edge to the first node carrying `id`.
    pub fn connect_by_id(&mut self, id: usize, dest: usize, matches: Option<EdgeMatches>)
        requires
            old(self).contains_id(id as int),
        ensures
            final(self).start == old(self).start,
            final(self).end == old(self).end,
            final(self).nodes@.len() == old(self).nodes@.len(),
            exists|k: int|
                {
                    &&& 0 <= k < old(self).nodes@.len()
                    &&& (#[trigger] old(self).nodes@[k]).id == id
                    &&& final(self).nodes@[k].id == id
                    &&& final(self).nodes@[k].edges@ == old(self).nodes@[k].edges@.push(
                        Edge { matches: matches, next_node: dest },
                    )
                    &&& forall|j: int|
                        0 <= j < old(self).nodes@.len() && j != k
                            ==> final(self).nodes@[j] == old(self).nodes@[j]
                },
    {
        let k = self.index_of_id(id);
        let node = &mut self.nodes[k];
        node.connect(dest, matches);
    }

    /// Append an edge leaving the start state.
    pub fn connect_start(&mut self, dest: usize, matches: Option<EdgeMatches>)
        requires
            old(self).contains_id(old(self).start as int),
        ensures
            final(self).start == old(self).start,
            final(self).end == old(self).end,
            final(self).nodes@.len() == old(self).nodes@.len(),
            exists|k: int|
                {
                    &&& 0 <= k < old(self).nodes@.len()
                    &&& (#[trigger] old(self).nodes@[k]).id == old(self).start
                    &&& final(self).nodes@[k].id == old(self).start
                    &&& final(self).nodes@[k].edges@ == old(self).nodes@[k].edges@.push(
                        Edge { matches: matches, next_node: dest },
                    )
                    &&& forall|j: int|
                        0 <= j < old(self).nodes@.len() && j != k
                            ==> final(self).nodes@[j] == old(self).nodes@[j]
                },
    {
        let id = self.start;
        self.connect_by_id(id, dest, matches);
    }

    /// Append an edge leaving the end state.
    pub fn connect_end(&mut self, dest: usize, matches: Option<EdgeMatches>)
        requires
            old(self).contains_id(old(self).end as int),
        ensures
            final(self).start == old(self).start,
            final(self).end == old(self).end,
            final(self).nodes@.len() == old(self).nodes@.len(),
            exists|k: int|
                {
                    &&& 0 <= k < old(self).nodes@.len()
                    &&& (#[trigger] old(self).nodes@[k]).id == old(self).end
                    &&& final(self).nodes@[k].id == old(self).end
                    &&& final(self).nodes@[k].edges@ == old(self).nodes@[k].edges@.push(
                        Edge { matches: matches, next_node: dest },
                    )
                    &&& forall|j: int|
                        0 <= j < old(self).nodes@.len() && j != k
                            ==> final(self).nodes@[j] == old(self).nodes@[j]
                },
    {
        let id = self.end;
        self.connect_by_id(id, dest, matches);
    }
}


/// A vector never holds more elements than the machine can index.
pub proof fn lemma_vec_len_bound<T>(v: &Vec<T>)
    ensures
        v@.len() <= usize::MAX,
{
    broadcast use vstd::std_specs::vec::axiom_spec_len;

    assert(vstd::std_specs::vec::spec_vec_len(v) == v@.len());
}

} // verus!
