//! The match engine: runs a compacted transition table over input bytes.

use vstd::prelude::*;

use crate::node::{EdgeModel, edge_model_matches, edge_models};
use crate::regex_gen::{
    RegexItem, item_end_id, item_model, lemma_thompson_item_congruent, thompson_item,
};
use crate::transtable::{
    TableModel, TransTable, contains_state, m_as_dfa, m_index_of, m_renumber,
    table_from_built,
};

verus! {

/// The edge list of state `q`, or empty when `q` is not listed.
pub open spec fn m_row_of(m: TableModel, q: usize) -> Seq<EdgeModel> {
    if m.states.contains(q) {
        m.trans[m_index_of(m, q)]
    } else {
        Seq::empty()
    }
}

/// The destination of the first listed edge that accepts `c`.
pub open spec fn first_match(row: Seq<EdgeModel>, c: u8) -> Option<int>
    decreases row.len(),
{
    if row.len() == 0 {
        Option::None
    } else if edge_model_matches(row[0], c) {
        Option::Some(row[0].next)
    } else {
        first_match(row.drop_first(), c)
    }
}

/// One deterministic run over the table from state `q`: each byte is
/// consumed along the first listed edge that accepts it; the input is
/// recognized when the state reached at its end is accepting.
pub open spec fn m_run(m: TableModel, q: usize, s: Seq<u8>) -> bool
    decreases s.len(),
{
    if s.len() == 0 {
        m.end.contains(q)
    } else {
        match first_match(m_row_of(m, q), s[0]) {
            Option::None => false,
            Option::Some(d) => m_run(m, d as usize, s.drop_first()),
        }
    }
}

/// Nondeterministic acceptance: some choice of accepting edges consumes
/// the whole input and ends in an accepting state.
pub open spec fn m_accepts(m: TableModel, q: usize, s: Seq<u8>) -> bool
    decreases s.len(),
{
    if s.len() == 0 {
        m.end.contains(q)
    } else {
        exists|k: int|
            0 <= k < m_row_of(m, q).len() && edge_model_matches(
                #[trigger] m_row_of(m, q)[k],
                s[0],
            ) && m_accepts(m, (m_row_of(m, q)[k].next) as usize, s.drop_first())
    }
}

pub proof fn lemma_first_match_found(row: Seq<EdgeModel>, c: u8, x: int)
    requires
        first_match(row, c) == Option::Some(x),
    ensures
        exists|k: int|
            0 <= k < row.len() && edge_model_matches(#[trigger] row[k], c) && row[k].next == x,
    decreases row.len(),
{
    if row.len() > 0 {
        if edge_model_matches(row[0], c) {
            assert(row[0].next == x);
        } else {
            lemma_first_match_found(row.drop_first(), c, x);
            let k = choose|k: int|
                0 <= k < row.drop_first().len() && edge_model_matches(
                    #[trigger] row.drop_first()[k],
                    c,
                ) && row.drop_first()[k].next == x;
            assert(row[k + 1] == row.drop_first()[k]);
        }
    }
}

/// Match soundness, the shown direction: whatever the deterministic run
/// recognizes, the epsilon-free table accepts along some edge choice.  The
/// converse does not hold of every table: where two edges of one state
/// accept the same byte, first-match resolution may commit to the wrong
/// one.
pub proof fn lemma_run_implies_accepts(m: TableModel, q: usize, s: Seq<u8>)
    requires
        m_run(m, q, s),
    ensures
        m_accepts(m, q, s),
    decreases s.len(),
{
    if s.len() > 0 {
        let d = first_match(m_row_of(m, q), s[0]);
        let x = d.unwrap();
        lemma_first_match_found(m_row_of(m, q), s[0], x);
        let k = choose|k: int|
            0 <= k < m_row_of(m, q).len() && edge_model_matches(
                #[trigger] m_row_of(m, q)[k],
                s[0],
            ) && m_row_of(m, q)[k].next == x;
        lemma_run_implies_accepts(m, x as usize, s.drop_first());
        assert(m_accepts(m, (m_row_of(m, q)[k].next) as usize, s.drop_first()));
    }
}

/// Determinism of compilation: two pattern trees with one picture flatten
/// to one table picture, compact to one compacted picture, and decide every
/// input alike.  With the parser pinned to the grammar, compiling one
/// pattern twice therefore recognizes one language.
pub proof fn lemma_compilation_deterministic(a: RegexItem, b: RegexItem, s: Seq<u8>)
    requires
        item_model(a) == item_model(b),
    ensures
        ({
            let ta = m_renumber(
                m_as_dfa(
                    table_from_built(thompson_item(a, 0), 0, item_end_id(a, 0) as usize),
                ),
            );
            let tb = m_renumber(
                m_as_dfa(
                    table_from_built(thompson_item(b, 0), 0, item_end_id(b, 0) as usize),
                ),
            );
            &&& ta == tb
            &&& m_run(ta, ta.start, s) == m_run(tb, tb.start, s)
        }),
{
    lemma_thompson_item_congruent(a, b, 0);
}

/// The match engine: holds a compacted table and decides exact match.
#[derive(Debug)]
pub struct ExecuteEngine {
    pub transtable: TransTable,
}

impl ExecuteEngine {
    pub open spec fn wf(self) -> bool {
        self.transtable.wf()
    }

    pub fn with_transtable(transtable: TransTable) -> (r: ExecuteEngine)
        ensures
            r.transtable == transtable,
    {
        ExecuteEngine { transtable }
    }

    /// Whether the whole input is exactly recognized: the deterministic run
    /// from the start state over all of `s`.
    pub fn exact_match(&self, s: &[u8]) -> (r: bool)
        requires
            self.wf(),
        ensures
            r == m_run(self.transtable.model(), self.transtable.start, s@),
    {
        let ghost m = self.transtable.model();
        let mut state = self.transtable.start_id();
        let mut i: usize = 0;
        proof {
            assert(s@.skip(0) =~= s@);
        }
        while i < s.len()
            invariant
                self.wf(),
                m == self.transtable.model(),
                i <= s@.len(),
                self.transtable.states@.contains(state),
                m_run(m, self.transtable.start, s@) == m_run(m, state, s@.skip(i as int)),
            decreases s@.len() - i,
        {
            let c = s[i];
            proof {
                assert(s@.skip(i as int)[0] == c);
                assert(s@.skip(i as int).drop_first() =~= s@.skip(i as int + 1));
            }
            match first_matching_edge(&self.transtable, state, c) {
                Option::Some(d) => {
                    proof {
                        lemma_first_match_found(m_row_of(m, state), c, d as int);
                        let k = choose|k: int|
                            0 <= k < m_row_of(m, state).len() && edge_model_matches(
                                #[trigger] m_row_of(m, state)[k],
                                c,
                            ) && m_row_of(m, state)[k].next == d as int;
                        let idx = m_index_of(m, state);
                        assert(m.trans[idx][k].next == d as int);
                        assert(edge_models(self.transtable.trans@[idx]@)[k].next == d as int);
                        assert(self.transtable.trans@[idx]@[k].next_node == d);
                        assert(self.transtable.states@.contains(d));
                    }
                    state = d;
                },
                Option::None => {
                    return false;
                },
            }
            i = i + 1;
        }
        proof {
            assert(s@.skip(s@.len() as int) =~= Seq::<u8>::empty());
        }
        contains_state(&self.transtable.end, state)
    }
}

/// The destination of the first edge of `state` that accepts `c`.
fn first_matching_edge(t: &TransTable, state: usize, c: u8) -> (r: Option<usize>)
    requires
        t.wf(),
        t.states@.contains(state),
    ensures
        (match r {
            Option::Some(d) => first_match(m_row_of(t.model(), state), c) == Option::Some(
                d as int,
            ),
            Option::None => first_match(m_row_of(t.model(), state), c) is None,
        }),
{
    let ghost m = t.model();
    let idx = t.index_of_state(state);
    proof {
        assert(m_index_of(m, state) == idx as int) by {
            assert(m.states[idx as int] == state);
            let ci = m_index_of(m, state);
            assert(m.states[ci] == state);
        }
        assert(m_row_of(m, state) == m.trans[idx as int]);
        assert(m.trans[idx as int] == edge_models(t.trans@[idx as int]@));
    }
    let ghost row = m_row_of(m, state);
    let mut k: usize = 0;
    proof {
        assert(row.skip(0) =~= row);
    }
    while k < t.trans[idx].len()
        invariant
            t.wf(),
            m == t.model(),
            idx < t.states@.len(),
            idx < t.trans@.len(),
            row == m_row_of(m, state),
            row == edge_models(t.trans@[idx as int]@),
            row.len() == t.trans@[idx as int]@.len(),
            k <= row.len(),
            first_match(row, c) == first_match(row.skip(k as int), c),
        decreases row.len() - k,
    {
        let e = &t.trans[idx][k];
        proof {
            assert(e.wf());
            assert(row[k as int] == t.trans@[idx as int]@[k as int].model());
            assert(row.skip(k as int)[0] == row[k as int]);
            assert(row.skip(k as int).drop_first() =~= row.skip(k as int + 1));
        }
        if e.match_character(c) {
            proof {
                assert(first_match(row.skip(k as int), c) == Option::Some(row[k as int].next));
                assert(row[k as int].next == e.next_node as int);
            }
            return Option::Some(e.next_node());
        }
        k = k + 1;
    }
    proof {
        assert(row.skip(row.len() as int) =~= Seq::<EdgeModel>::empty());
    }
    Option::None
}

} // verus!
