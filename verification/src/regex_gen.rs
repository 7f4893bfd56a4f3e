//! Pattern syntax trees, the recursive-descent parser, and the translation
//! of a tree into a Thompson-style NFA fragment.

use vstd::prelude::*;

use crate::node::{
    AtomModel, Edge, EdgeMatches, EdgeModel, IdAlloc, NFAGraph, Node, PredModel,
    atom_model_of, edge_models, lemma_vec_len_bound, seq_int_sum,
};
use vstd::slice::slice_to_vec;

verus! {

/// One unit of a pattern: a byte, a byte range, a negated byte (`.`), a
/// negated class (`[^...]`), a class (`[...]`), a concatenation, or a
/// pipe-alternation.
#[derive(Debug, PartialEq)]
pub enum RegexUnit {
    Character(u8),
    CharacterRange(u8, u8),
    NotCharacter(u8),
    NotUnits(Vec<RegexUnit>),
    UnitChoice(Vec<RegexUnit>),
    ItemList(Vec<RegexItem>),
    ItemChoice(Vec<RegexItem>),
}

/// The quantifier attached to a unit: exactly one, `?`, `+`, or `*`.
#[derive(Debug, PartialEq, Eq, Structural, Clone, Copy)]
pub enum RegexAnnotation {
    StandAlone,
    OneOrZero,
    GreaterZero,
    AnyOccurs,
}

/// A quantified unit.
#[derive(Debug, PartialEq)]
pub struct RegexItem {
    pub unit: RegexUnit,
    pub annotation: RegexAnnotation,
}

/// A unit that may stand inside a character class.
pub open spec fn class_atom(u: RegexUnit) -> bool {
    match u {
        RegexUnit::Character(_) => true,
        RegexUnit::CharacterRange(_, _) => true,
        _ => false,
    }
}

/// Well-formed unit: a negated class holds class atoms only, and a
/// concatenation is never empty.  The parser produces only such trees for
/// patterns it accepts in full.
pub open spec fn unit_wf(u: RegexUnit) -> bool
    decreases u,
{
    match u {
        RegexUnit::Character(_) => true,
        RegexUnit::CharacterRange(_, _) => true,
        RegexUnit::NotCharacter(_) => true,
        RegexUnit::NotUnits(us) => forall|i: int|
            0 <= i < us@.len() ==> class_atom(#[trigger] us@[i]),
        RegexUnit::UnitChoice(us) => units_wf(us@),
        RegexUnit::ItemList(is) => is@.len() > 0 && items_wf(is@),
        RegexUnit::ItemChoice(is) => is@.len() > 0 && items_wf(is@),
    }
}

pub open spec fn units_wf(s: Seq<RegexUnit>) -> bool
    decreases s,
{
    if s.len() == 0 {
        true
    } else {
        units_wf(s.drop_last()) && unit_wf(s.last())
    }
}

pub open spec fn item_wf(it: RegexItem) -> bool
    decreases it,
{
    unit_wf(it.unit)
}

pub open spec fn items_wf(s: Seq<RegexItem>) -> bool
    decreases s,
{
    if s.len() == 0 {
        true
    } else {
        items_wf(s.drop_last()) && item_wf(s.last())
    }
}

/// Number of states the translation allocates for a unit.
pub open spec fn unit_id_count(u: RegexUnit) -> int
    decreases u,
{
    match u {
        RegexUnit::Character(_) => 2,
        RegexUnit::CharacterRange(_, _) => 2,
        RegexUnit::NotCharacter(_) => 2,
        RegexUnit::NotUnits(_) => 2,
        RegexUnit::UnitChoice(us) => 2 + units_id_count(us@),
        RegexUnit::ItemList(is) => items_id_count(is@),
        RegexUnit::ItemChoice(is) => 2 + items_id_count(is@),
    }
}

pub open spec fn units_id_count(s: Seq<RegexUnit>) -> int
    decreases s,
{
    if s.len() == 0 {
        0
    } else {
        units_id_count(s.drop_last()) + unit_id_count(s.last())
    }
}

pub open spec fn item_id_count(it: RegexItem) -> int
    decreases it,
{
    unit_id_count(it.unit)
}

pub open spec fn items_id_count(s: Seq<RegexItem>) -> int
    decreases s,
{
    if s.len() == 0 {
        0
    } else {
        items_id_count(s.drop_last()) + item_id_count(s.last())
    }
}

pub proof fn lemma_unit_id_count_pos(u: RegexUnit)
    ensures
        unit_id_count(u) >= 0,
    decreases u,
{
    match u {
        RegexUnit::UnitChoice(us) => lemma_units_id_count_nonneg(us@),
        RegexUnit::ItemList(is) => lemma_items_id_count_nonneg(is@),
        RegexUnit::ItemChoice(is) => lemma_items_id_count_nonneg(is@),
        _ => {},
    }
}

pub proof fn lemma_units_id_count_nonneg(s: Seq<RegexUnit>)
    ensures
        units_id_count(s) >= 0,
    decreases s,
{
    if s.len() > 0 {
        lemma_units_id_count_nonneg(s.drop_last());
        lemma_unit_id_count_pos(s.last());
    }
}

pub proof fn lemma_items_id_count_nonneg(s: Seq<RegexItem>)
    ensures
        items_id_count(s) >= 0,
    decreases s,
{
    if s.len() > 0 {
        lemma_items_id_count_nonneg(s.drop_last());
        lemma_unit_id_count_pos(s.last().unit);
        assert(item_id_count(s.last()) == unit_id_count(s.last().unit));
    }
}

pub proof fn lemma_units_id_count_take(s: Seq<RegexUnit>, i: int)
    requires
        0 <= i < s.len(),
    ensures
        units_id_count(s.take(i + 1)) == units_id_count(s.take(i)) + unit_id_count(s[i]),
{
    assert(s.take(i + 1).drop_last() =~= s.take(i));
    assert(s.take(i + 1).last() == s[i]);
}

pub proof fn lemma_items_id_count_take(s: Seq<RegexItem>, i: int)
    requires
        0 <= i < s.len(),
    ensures
        items_id_count(s.take(i + 1)) == items_id_count(s.take(i)) + item_id_count(s[i]),
{
    assert(s.take(i + 1).drop_last() =~= s.take(i));
    assert(s.take(i + 1).last() == s[i]);
}

pub proof fn lemma_units_id_count_prefix_bound(s: Seq<RegexUnit>, i: int)
    requires
        0 <= i <= s.len(),
    ensures
        units_id_count(s.take(i)) <= units_id_count(s),
    decreases s.len() - i,
{
    if i == s.len() {
        assert(s.take(i) =~= s);
    } else {
        lemma_units_id_count_take(s, i);
        lemma_unit_id_count_pos(s[i]);
        lemma_units_id_count_prefix_bound(s, i + 1);
    }
}

pub proof fn lemma_items_id_count_prefix_bound(s: Seq<RegexItem>, i: int)
    requires
        0 <= i <= s.len(),
    ensures
        items_id_count(s.take(i)) <= items_id_count(s),
    decreases s.len() - i,
{
    if i == s.len() {
        assert(s.take(i) =~= s);
    } else {
        lemma_items_id_count_take(s, i);
        lemma_unit_id_count_pos(s[i].unit);
        lemma_items_id_count_prefix_bound(s, i + 1);
    }
}

pub proof fn lemma_units_wf_take(s: Seq<RegexUnit>, i: int)
    requires
        0 <= i < s.len(),
        units_wf(s),
    ensures
        unit_wf(s[i]),
    decreases s.len() - i,
{
    if i + 1 == s.len() {
        assert(s.drop_last() =~= s.take(i));
        assert(s.last() == s[i]);
    } else {
        assert(s.drop_last() =~= s.take(s.len() - 1));
        lemma_units_wf_prefix(s, s.len() - 1);
        lemma_units_wf_take(s.take(s.len() - 1), i);
    }
}

pub proof fn lemma_units_wf_prefix(s: Seq<RegexUnit>, i: int)
    requires
        0 <= i <= s.len(),
        units_wf(s),
    ensures
        units_wf(s.take(i)),
    decreases s.len() - i,
{
    if i == s.len() {
        assert(s.take(i) =~= s);
    } else {
        lemma_units_wf_prefix_step(s);
        lemma_units_wf_prefix(s.take(s.len() - 1), i);
        assert(s.take(s.len() - 1).take(i) =~= s.take(i));
        assert(units_wf(s.take(i)));
    }
}

proof fn lemma_units_wf_prefix_step(s: Seq<RegexUnit>)
    requires
        s.len() > 0,
        units_wf(s),
    ensures
        units_wf(s.take(s.len() - 1)),
{
    assert(s.drop_last() =~= s.take(s.len() - 1));
}

pub proof fn lemma_items_wf_take(s: Seq<RegexItem>, i: int)
    requires
        0 <= i < s.len(),
        items_wf(s),
    ensures
        item_wf(s[i]),
    decreases s.len() - i,
{
    if i + 1 == s.len() {
        assert(s.drop_last() =~= s.take(i));
        assert(s.last() == s[i]);
    } else {
        assert(s.drop_last() =~= s.take(s.len() - 1));
        lemma_items_wf_prefix(s, s.len() - 1);
        lemma_items_wf_take(s.take(s.len() - 1), i);
    }
}

pub proof fn lemma_items_wf_prefix(s: Seq<RegexItem>, i: int)
    requires
        0 <= i <= s.len(),
        items_wf(s),
    ensures
        items_wf(s.take(i)),
    decreases s.len() - i,
{
    if i == s.len() {
        assert(s.take(i) =~= s);
    } else {
        assert(s.drop_last() =~= s.take(s.len() - 1));
        lemma_items_wf_prefix(s.take(s.len() - 1), i);
        assert(s.take(s.len() - 1).take(i) =~= s.take(i));
        assert(items_wf(s.take(i)));
    }
}

/// The arena discipline of the translation: node `i` carries id `base + i`,
/// so ids are consecutive and each id names exactly one node.
pub open spec fn arena_ok(a: Seq<Node>, base: int) -> bool {
    forall|i: int| 0 <= i < a.len() ==> (#[trigger] a[i]).id == base + i
}

/// Every edge of the nodes at indices `[from, to)` is well-formed and leads
/// to an id in `[lo, hi)`.
pub open spec fn region_edges_ok(a: Seq<Node>, from: int, to: int, lo: int, hi: int) -> bool {
    forall|i: int, k: int|
        from <= i < to && i < a.len() && 0 <= k < a[i].edges@.len() ==> lo <= (#[trigger] a[
            i
        ].edges@[k]).next_node < hi && a[i].edges@[k].wf()
}

/// Append one edge to the node carrying `id`.
fn arena_add_edge(
    arena: &mut Vec<Node>,
    base: usize,
    id: usize,
    dest: usize,
    matches: Option<EdgeMatches>,
)
    requires
        arena_ok(old(arena)@, base as int),
        base <= id,
        id - base < old(arena)@.len(),
        (match matches {
            Option::Some(m) => m.wf(),
            Option::None => true,
        }),
    ensures
        final(arena)@.len() == old(arena)@.len(),
        arena_ok(final(arena)@, base as int),
        forall|j: int|
            0 <= j < old(arena)@.len() && j != id - base ==> final(arena)@[j] == old(
                arena,
            )@[j],
        final(arena)@[id - base].id == id,
        final(arena)@[id - base].edges@ == old(arena)@[id - base].edges@.push(
            (Edge { matches: matches, next_node: dest }),
        ),
        arena_edges(final(arena)@) == arena_edges(old(arena)@) + 1,
{
    let idx = id - base;
    let ghost a0 = arena@;
    let node = &mut arena[idx];
    node.connect(dest, matches);
    proof {
        lemma_arena_edges_update(a0, idx as int, arena@[idx as int]);
    }
}

/// Translate a unit into fresh states appended to `arena`, handing back the
/// ids of the fragment's start and end states.
#[verifier::rlimit(80)]
#[verifier::spinoff_prover]
fn build_unit(u: &RegexUnit, arena: &mut Vec<Node>, ids: &mut IdAlloc, base: usize) -> (se: (
    usize,
    usize,
))
    requires
        unit_wf(*u),
        arena_ok(old(arena)@, base as int),
        old(ids).next == base + old(arena)@.len(),
        old(ids).next + unit_id_count(*u) <= usize::MAX,
    ensures
        final(ids).next == old(ids).next + unit_id_count(*u),
        final(arena)@.len() == old(arena)@.len() + unit_id_count(*u),
        final(ids).next == base + final(arena)@.len(),
        arena_ok(final(arena)@, base as int),
        forall|j: int| 0 <= j < old(arena)@.len() ==> final(arena)@[j] == old(arena)@[j],
        se.0 == old(ids).next,
        old(ids).next <= se.1 < final(ids).next,
        region_edges_ok(
            final(arena)@,
            old(arena)@.len() as int,
            final(arena)@.len() as int,
            old(ids).next as int,
            final(ids).next as int,
        ),
        arena_edges(final(arena)@) == arena_edges(old(arena)@) + unit_edge_count(*u),
        se.1 == unit_end_id(*u, old(ids).next as int),
        built_of(final(arena)@.skip(old(arena)@.len() as int)) == thompson_unit(
            *u,
            old(ids).next as int,
        ),
    decreases *u,
{
    let ghost a0 = arena@;
    let ghost n0 = ids.next as int;
    match u {
        RegexUnit::Character(c) => {
            proof {
                assert(unit_id_count(*u) == 2);
            }
            let s = ids.fresh();
            let e = ids.fresh();
            let ghost a_before = arena@;
            arena.push(Node::from_id(s));
            let ghost a_mid = arena@;
            arena.push(Node::from_id(e));
            proof {
                lemma_arena_edges_push(a_before, a_mid[a_mid.len() - 1]);
                lemma_arena_edges_push(a_mid, arena@[arena@.len() - 1]);
            }
            arena_add_edge(arena, base, s, e, Option::Some(EdgeMatches::Character(*c)));
            proof {
                assert(edge_models(arena@[a0.len() as int].edges@) =~= seq![
                    EdgeModel { pred: Option::Some(PredModel::Char(*c)), next: n0 + 1 },
                ]);
                assert(edge_models(arena@[a0.len() as int + 1].edges@) =~= Seq::<EdgeModel>::empty());
                assert(built_of(arena@.skip(a0.len() as int)) =~= thompson_unit(*u, n0));
            }
            (s, e)
        },
        RegexUnit::CharacterRange(lo, hi) => {
            proof {
                assert(unit_id_count(*u) == 2);
            }
            let s = ids.fresh();
            let e = ids.fresh();
            let ghost a_before = arena@;
            arena.push(Node::from_id(s));
            let ghost a_mid = arena@;
            arena.push(Node::from_id(e));
            proof {
                lemma_arena_edges_push(a_before, a_mid[a_mid.len() - 1]);
                lemma_arena_edges_push(a_mid, arena@[arena@.len() - 1]);
            }
            arena_add_edge(
                arena,
                base,
                s,
                e,
                Option::Some(EdgeMatches::CharacterRange(*lo, *hi)),
            );
            proof {
                assert(edge_models(arena@[a0.len() as int].edges@) =~= seq![
                    EdgeModel { pred: Option::Some(PredModel::Range(*lo, *hi)), next: n0 + 1 },
                ]);
                assert(edge_models(arena@[a0.len() as int + 1].edges@) =~= Seq::<EdgeModel>::empty());
                assert(built_of(arena@.skip(a0.len() as int)) =~= thompson_unit(*u, n0));
            }
            (s, e)
        },
        RegexUnit::NotCharacter(c) => {
            proof {
                assert(unit_id_count(*u) == 2);
            }
            let s = ids.fresh();
            let e = ids.fresh();
            let ghost a_before = arena@;
            arena.push(Node::from_id(s));
            let ghost a_mid = arena@;
            arena.push(Node::from_id(e));
            proof {
                lemma_arena_edges_push(a_before, a_mid[a_mid.len() - 1]);
                lemma_arena_edges_push(a_mid, arena@[arena@.len() - 1]);
            }
            let mut inner: Vec<EdgeMatches> = Vec::new();
            inner.push(EdgeMatches::Character(*c));
            let m = EdgeMatches::Not(inner);
            let ghost mv = m;
            proof {
                assert(m.wf());
                assert(mv.model()->Neg_0 =~= seq![AtomModel::Char(*c)]);
                assert(mv.model() =~~= PredModel::Neg(seq![AtomModel::Char(*c)]));
            }
            arena_add_edge(arena, base, s, e, Option::Some(m));
            proof {
                assert(edge_models(arena@[a0.len() as int].edges@) =~= seq![
                    EdgeModel {
                        pred: Option::Some(PredModel::Neg(seq![AtomModel::Char(*c)])),
                        next: n0 + 1,
                    },
                ]);
                assert(edge_models(arena@[a0.len() as int + 1].edges@) =~= Seq::<EdgeModel>::empty());
                assert(built_of(arena@.skip(a0.len() as int)) =~= thompson_unit(*u, n0));
            }
            (s, e)
        },
        RegexUnit::NotUnits(us) => {
            proof {
                assert(unit_id_count(*u) == 2);
            }
            let s = ids.fresh();
            let e = ids.fresh();
            let ghost a_before = arena@;
            arena.push(Node::from_id(s));
            let ghost a_mid = arena@;
            arena.push(Node::from_id(e));
            proof {
                lemma_arena_edges_push(a_before, a_mid[a_mid.len() - 1]);
                lemma_arena_edges_push(a_mid, arena@[arena@.len() - 1]);
            }
            let mut inner: Vec<EdgeMatches> = Vec::new();
            let mut i: usize = 0;
            proof {
                assert(us@.take(0) =~= Seq::<RegexUnit>::empty());
                assert(class_atoms_model(us@.take(0)) =~= inner@.map_values(
                    |a: EdgeMatches| atom_model_of(a),
                ));
            }
            while i < us.len()
                invariant
                    i <= us@.len(),
                    *u == RegexUnit::NotUnits(*us),
                    forall|j: int| 0 <= j < us@.len() ==> class_atom(#[trigger] us@[j]),
                    forall|j: int| 0 <= j < inner@.len() ==> (#[trigger] inner@[j]).is_atom(),
                    class_atoms_model(us@.take(i as int)) == inner@.map_values(
                        |a: EdgeMatches| atom_model_of(a),
                    ),
                decreases us@.len() - i,
            {
                let ghost iv0 = inner@;
                proof {
                    lemma_class_atoms_model_take(us@, i as int);
                }
                match &us[i] {
                    RegexUnit::Character(c) => inner.push(EdgeMatches::Character(*c)),
                    RegexUnit::CharacterRange(lo, hi) => inner.push(
                        EdgeMatches::CharacterRange(*lo, *hi),
                    ),
                    _ => {
                        proof {
                            assert(class_atom(us@[i as int]));
                            assert(false);
                        }
                    },
                }
                proof {
                    assert(class_atoms_model(us@.take(i as int + 1)) =~= inner@.map_values(
                        |a: EdgeMatches| atom_model_of(a),
                    ));
                }
                i = i + 1;
            }
            let m = EdgeMatches::Not(inner);
            let ghost mv = m;
            proof {
                assert(m.wf());
                assert(us@.take(us@.len() as int) =~= us@);
                assert(mv.model()->Neg_0 =~= class_atoms_model(us@));
                assert(mv.model() =~~= PredModel::Neg(class_atoms_model(us@)));
            }
            arena_add_edge(arena, base, s, e, Option::Some(m));
            proof {
                assert(edge_models(arena@[a0.len() as int].edges@) =~= seq![
                    EdgeModel {
                        pred: Option::Some(PredModel::Neg(class_atoms_model(us@))),
                        next: n0 + 1,
                    },
                ]);
                assert(edge_models(arena@[a0.len() as int + 1].edges@) =~= Seq::<EdgeModel>::empty());
                assert(built_of(arena@.skip(a0.len() as int)) =~= thompson_unit(*u, n0));
            }
            (s, e)
        },
        RegexUnit::UnitChoice(us) => {
            proof {
                lemma_units_id_count_nonneg(us@);
            }
            let s = ids.fresh();
            let e = ids.fresh();
            let ghost a_before = arena@;
            arena.push(Node::from_id(s));
            let ghost a_mid = arena@;
            arena.push(Node::from_id(e));
            proof {
                lemma_arena_edges_push(a_before, a_mid[a_mid.len() - 1]);
                lemma_arena_edges_push(a_mid, arena@[arena@.len() - 1]);
                assert(us@.take(0) =~= Seq::<RegexUnit>::empty());
                assert(unit_choice_start_node(us@.take(0), n0) =~~= empty_node(n0));
                assert(choice_units(us@.take(0), n0, n0 + 1) == Seq::<BuiltNode>::empty());
                assert(edge_models(arena@[a0.len() as int].edges@) =~= Seq::<
                    EdgeModel,
                >::empty());
                assert(edge_models(arena@[a0.len() as int + 1].edges@) =~= Seq::<EdgeModel>::empty());
                assert(built_of(arena@.skip(a0.len() as int)) =~= seq![
                    unit_choice_start_node(us@.take(0), n0),
                    empty_node(n0 + 1),
                ] + choice_units(us@.take(0), n0, n0 + 1));
            }
            let mut i: usize = 0;
            while i < us.len()
                invariant
                    i <= us@.len(),
                    *u == RegexUnit::UnitChoice(*us),
                    units_wf(us@),
                    s == n0,
                    e == n0 + 1,
                    base + a0.len() == n0,
                    n0 + 2 + units_id_count(us@) <= usize::MAX,
                    ids.next == n0 + 2 + units_id_count(us@.take(i as int)),
                    arena@.len() == a0.len() + 2 + units_id_count(us@.take(i as int)),
                    arena_edges(arena@) == arena_edges(a0) + units_edge_count(
                        us@.take(i as int),
                    ) + 2 * i,
                    ids.next == base + arena@.len(),
                    arena_ok(arena@, base as int),
                    forall|j: int| 0 <= j < a0.len() ==> arena@[j] == a0[j],
                    region_edges_ok(
                        arena@,
                        a0.len() as int,
                        arena@.len() as int,
                        n0,
                        ids.next as int,
                    ),
                    built_of(arena@.skip(a0.len() as int)) == seq![
                        unit_choice_start_node(us@.take(i as int), n0),
                        empty_node(n0 + 1),
                    ] + choice_units(us@.take(i as int), n0, n0 + 1),
                decreases us@.len() - i,
            {
                proof {
                    lemma_units_wf_take(us@, i as int);
                    lemma_units_id_count_take(us@, i as int);
                    lemma_units_edge_count_take(us@, i as int);
                    lemma_units_id_count_prefix_bound(us@, i as int + 1);
                    lemma_unit_id_count_pos(us@[i as int]);
                    lemma_units_id_count_nonneg(us@.take(i as int));
                    assert(decreases_to!(*u => u->UnitChoice_0));
                    assert(decreases_to!(u->UnitChoice_0 => u->UnitChoice_0@));
                    assert(decreases_to!(u->UnitChoice_0@ => u->UnitChoice_0@[i as int]));
                    assert(us@[i as int] == u->UnitChoice_0@[i as int]);
                }
                let ghost r0 = built_of(arena@.skip(a0.len() as int));
                let ghost a_pre = arena@;
                let ghost cbase = ids.next as int;
                let child = build_unit(&us[i], arena, ids, base);
                proof {
                    lemma_built_region_append(a_pre, arena@, a0.len() as int);
                    lemma_thompson_unit_len(us@[i as int], cbase);
                    lemma_unit_end_id_range(us@[i as int], cbase);
                    lemma_unit_id_count_ge2(us@[i as int]);
                }
                let ghost tch = thompson_unit(us@[i as int], cbase);
                let ghost a_c = arena@;
                arena_add_edge(arena, base, s, child.0, Option::None);
                proof {
                    lemma_built_region_add_eps(
                        a_c,
                        arena@,
                        a0.len() as int,
                        a0.len() as int,
                        child.0,
                    );
                    lemma_add_eps_concat_left(r0, tch, 0, child.0 as int);
                }
                let ghost a_c2 = arena@;
                arena_add_edge(arena, base, child.1, e, Option::None);
                proof {
                    lemma_built_region_add_eps(
                        a_c2,
                        arena@,
                        a0.len() as int,
                        child.1 as int - base as int,
                        e,
                    );
                    let a1 = add_eps(r0, 0, child.0 as int);
                    lemma_add_eps_concat(a1, tch, child.1 as int - cbase, e as int);
                    lemma_choice_units_take(us@, i as int, n0, n0 + 1);
                    assert(unit_choice_start_node(us@.take(i as int + 1), n0) =~~= (BuiltNode {
                        id: n0,
                        edges: unit_choice_start_node(us@.take(i as int), n0).edges.push(
                            eps_to(cbase),
                        ),
                    })) by {
                        assert forall|j: int|
                            0 <= j < i + 1 implies unit_choice_start_node(
                            us@.take(i as int + 1),
                            n0,
                        ).edges[j] == (if j < i {
                            unit_choice_start_node(us@.take(i as int), n0).edges[j]
                        } else {
                            eps_to(cbase)
                        }) by {
                            assert(us@.take(i as int + 1).take(j) =~= us@.take(j));
                            if j < i {
                                assert(us@.take(i as int).take(j) =~= us@.take(j));
                            } else {
                                assert(us@.take(i as int + 1).take(i as int) =~= us@.take(
                                    i as int,
                                ));
                            }
                        }
                    }
                    assert(a1 =~= seq![
                        unit_choice_start_node(us@.take(i as int + 1), n0),
                        empty_node(n0 + 1),
                    ] + choice_units(us@.take(i as int), n0, n0 + 1));
                    assert(built_of(arena@.skip(a0.len() as int)) =~= seq![
                        unit_choice_start_node(us@.take(i as int + 1), n0),
                        empty_node(n0 + 1),
                    ] + choice_units(us@.take(i as int + 1), n0, n0 + 1));
                }
                i = i + 1;
            }
            proof {
                assert(us@.take(us@.len() as int) =~= us@);
                lemma_units_id_count_nonneg(us@);
                assert(built_of(arena@.skip(a0.len() as int)) == thompson_unit(*u, n0));
            }
            (s, e)
        },
        RegexUnit::ItemChoice(is) => {
            proof {
                lemma_items_id_count_nonneg(is@);
            }
            let s = ids.fresh();
            let e = ids.fresh();
            let ghost a_before = arena@;
            arena.push(Node::from_id(s));
            let ghost a_mid = arena@;
            arena.push(Node::from_id(e));
            proof {
                lemma_arena_edges_push(a_before, a_mid[a_mid.len() - 1]);
                lemma_arena_edges_push(a_mid, arena@[arena@.len() - 1]);
                assert(is@.take(0) =~= Seq::<RegexItem>::empty());
                assert(item_choice_start_node(is@.take(0), n0) =~~= empty_node(n0));
                assert(choice_items(is@.take(0), n0, n0 + 1) == Seq::<BuiltNode>::empty());
                assert(edge_models(arena@[a0.len() as int].edges@) =~= Seq::<
                    EdgeModel,
                >::empty());
                assert(edge_models(arena@[a0.len() as int + 1].edges@) =~= Seq::<EdgeModel>::empty());
                assert(built_of(arena@.skip(a0.len() as int)) =~= seq![
                    item_choice_start_node(is@.take(0), n0),
                    empty_node(n0 + 1),
                ] + choice_items(is@.take(0), n0, n0 + 1));
            }
            let mut i: usize = 0;
            while i < is.len()
                invariant
                    i <= is@.len(),
                    *u == RegexUnit::ItemChoice(*is),
                    items_wf(is@),
                    s == n0,
                    e == n0 + 1,
                    base + a0.len() == n0,
                    n0 + 2 + items_id_count(is@) <= usize::MAX,
                    ids.next == n0 + 2 + items_id_count(is@.take(i as int)),
                    arena@.len() == a0.len() + 2 + items_id_count(is@.take(i as int)),
                    arena_edges(arena@) == arena_edges(a0) + items_edge_count(
                        is@.take(i as int),
                    ) + 2 * i,
                    ids.next == base + arena@.len(),
                    arena_ok(arena@, base as int),
                    forall|j: int| 0 <= j < a0.len() ==> arena@[j] == a0[j],
                    region_edges_ok(
                        arena@,
                        a0.len() as int,
                        arena@.len() as int,
                        n0,
                        ids.next as int,
                    ),
                    built_of(arena@.skip(a0.len() as int)) == seq![
                        item_choice_start_node(is@.take(i as int), n0),
                        empty_node(n0 + 1),
                    ] + choice_items(is@.take(i as int), n0, n0 + 1),
                decreases is@.len() - i,
            {
                proof {
                    lemma_items_wf_take(is@, i as int);
                    lemma_items_id_count_take(is@, i as int);
                    lemma_items_edge_count_take(is@, i as int);
                    lemma_items_id_count_prefix_bound(is@, i as int + 1);
                    lemma_unit_id_count_pos(is@[i as int].unit);
                    lemma_items_id_count_nonneg(is@.take(i as int));
                    assert(decreases_to!(*u => u->ItemChoice_0));
                    assert(decreases_to!(u->ItemChoice_0 => u->ItemChoice_0@));
                    assert(decreases_to!(u->ItemChoice_0@ => u->ItemChoice_0@[i as int]));
                    assert(is@[i as int] == u->ItemChoice_0@[i as int]);
                }
                let ghost r0 = built_of(arena@.skip(a0.len() as int));
                let ghost a_pre = arena@;
                let ghost cbase = ids.next as int;
                let child = build_item(&is[i], arena, ids, base);
                proof {
                    lemma_built_region_append(a_pre, arena@, a0.len() as int);
                    lemma_thompson_item_len(is@[i as int], cbase);
                    lemma_item_end_id_range(is@[i as int], cbase);
                    lemma_unit_id_count_ge2(is@[i as int].unit);
                }
                let ghost tch = thompson_item(is@[i as int], cbase);
                let ghost a_c = arena@;
                arena_add_edge(arena, base, s, child.0, Option::None);
                proof {
                    lemma_built_region_add_eps(
                        a_c,
                        arena@,
                        a0.len() as int,
                        a0.len() as int,
                        child.0,
                    );
                    lemma_add_eps_concat_left(r0, tch, 0, child.0 as int);
                }
                let ghost a_c2 = arena@;
                arena_add_edge(arena, base, child.1, e, Option::None);
                proof {
                    lemma_built_region_add_eps(
                        a_c2,
                        arena@,
                        a0.len() as int,
                        child.1 as int - base as int,
                        e,
                    );
                    let a1 = add_eps(r0, 0, child.0 as int);
                    lemma_add_eps_concat(a1, tch, child.1 as int - cbase, e as int);
                    lemma_choice_items_take(is@, i as int, n0, n0 + 1);
                    assert(item_choice_start_node(is@.take(i as int + 1), n0) =~~= (BuiltNode {
                        id: n0,
                        edges: item_choice_start_node(is@.take(i as int), n0).edges.push(
                            eps_to(cbase),
                        ),
                    })) by {
                        assert forall|j: int|
                            0 <= j < i + 1 implies item_choice_start_node(
                            is@.take(i as int + 1),
                            n0,
                        ).edges[j] == (if j < i {
                            item_choice_start_node(is@.take(i as int), n0).edges[j]
                        } else {
                            eps_to(cbase)
                        }) by {
                            assert(is@.take(i as int + 1).take(j) =~= is@.take(j));
                            if j < i {
                                assert(is@.take(i as int).take(j) =~= is@.take(j));
                            } else {
                                assert(is@.take(i as int + 1).take(i as int) =~= is@.take(
                                    i as int,
                                ));
                            }
                        }
                    }
                    assert(a1 =~= seq![
                        item_choice_start_node(is@.take(i as int + 1), n0),
                        empty_node(n0 + 1),
                    ] + choice_items(is@.take(i as int), n0, n0 + 1));
                    assert(built_of(arena@.skip(a0.len() as int)) =~= seq![
                        item_choice_start_node(is@.take(i as int + 1), n0),
                        empty_node(n0 + 1),
                    ] + choice_items(is@.take(i as int + 1), n0, n0 + 1));
                }
                i = i + 1;
            }
            proof {
                assert(is@.take(is@.len() as int) =~= is@);
                lemma_items_id_count_nonneg(is@);
                assert(built_of(arena@.skip(a0.len() as int)) == thompson_unit(*u, n0));
            }
            (s, e)
        },
        RegexUnit::ItemList(is) => {
            let mut i: usize = 0;
            let mut first_start: usize = 0;
            let mut prev_end: usize = 0;
            proof {
                assert(is@.take(0) =~= Seq::<RegexItem>::empty());
                assert(arena@.skip(a0.len() as int) =~= Seq::<Node>::empty());
                assert(built_of(Seq::<Node>::empty()) =~= Seq::<BuiltNode>::empty());
            }
            while i < is.len()
                invariant
                    i <= is@.len(),
                    *u == RegexUnit::ItemList(*is),
                    items_wf(is@),
                    base + a0.len() == n0,
                    n0 + items_id_count(is@) <= usize::MAX,
                    ids.next == n0 + items_id_count(is@.take(i as int)),
                    arena@.len() == a0.len() + items_id_count(is@.take(i as int)),
                    arena_edges(arena@) == arena_edges(a0) + items_edge_count(
                        is@.take(i as int),
                    ) + (if i == 0 {
                        0int
                    } else {
                        i - 1
                    }),
                    ids.next == base + arena@.len(),
                    arena_ok(arena@, base as int),
                    forall|j: int| 0 <= j < a0.len() ==> arena@[j] == a0[j],
                    i > 0 ==> first_start == n0,
                    i > 0 ==> n0 <= prev_end < ids.next,
                    i > 0 ==> prev_end as int == list_end_id(is@.take(i as int), n0),
                    region_edges_ok(
                        arena@,
                        a0.len() as int,
                        arena@.len() as int,
                        n0,
                        ids.next as int,
                    ),
                    built_of(arena@.skip(a0.len() as int)) == list_items(
                        is@.take(i as int),
                        n0,
                    ),
                decreases is@.len() - i,
            {
                proof {
                    lemma_items_wf_take(is@, i as int);
                    lemma_items_id_count_take(is@, i as int);
                    lemma_items_edge_count_take(is@, i as int);
                    lemma_items_id_count_prefix_bound(is@, i as int + 1);
                    lemma_unit_id_count_pos(is@[i as int].unit);
                    lemma_items_id_count_nonneg(is@.take(i as int));
                    assert(decreases_to!(*u => u->ItemList_0));
                    assert(decreases_to!(u->ItemList_0 => u->ItemList_0@));
                    assert(decreases_to!(u->ItemList_0@ => u->ItemList_0@[i as int]));
                    assert(is@[i as int] == u->ItemList_0@[i as int]);
                }
                let ghost r0 = built_of(arena@.skip(a0.len() as int));
                let ghost a_pre = arena@;
                let ghost lb = ids.next as int;
                let child = build_item(&is[i], arena, ids, base);
                proof {
                    lemma_built_region_append(a_pre, arena@, a0.len() as int);
                    lemma_thompson_item_len(is@[i as int], lb);
                    lemma_item_end_id_range(is@[i as int], lb);
                }
                let ghost tch = thompson_item(is@[i as int], lb);
                if i == 0 {
                    first_start = child.0;
                    proof {
                        lemma_list_items_one(is@, n0);
                        assert(r0 + tch =~= tch);
                        assert(built_of(arena@.skip(a0.len() as int)) == list_items(
                            is@.take(1),
                            n0,
                        ));
                    }
                } else {
                    let ghost a_c = arena@;
                    arena_add_edge(arena, base, prev_end, child.0, Option::None);
                    proof {
                        lemma_items_wf_prefix(is@, i as int);
                        lemma_list_end_id_range(is@.take(i as int), n0);
                        lemma_list_items_len(is@.take(i as int), n0);
                        lemma_built_region_add_eps(
                            a_c,
                            arena@,
                            a0.len() as int,
                            prev_end as int - base as int,
                            child.0,
                        );
                        lemma_add_eps_concat_left(r0, tch, prev_end as int - n0, child.0 as int);
                        lemma_list_items_take(is@, i as int, n0);
                        assert(built_of(arena@.skip(a0.len() as int)) =~= list_items(
                            is@.take(i as int + 1),
                            n0,
                        ));
                    }
                }
                proof {
                    if i == 0 {
                        lemma_list_items_one(is@, n0);
                    } else {
                        lemma_list_items_take(is@, i as int, n0);
                    }
                }
                prev_end = child.1;
                i = i + 1;
            }
            proof {
                assert(is@.take(is@.len() as int) =~= is@);
                assert(built_of(arena@.skip(a0.len() as int)) == thompson_unit(*u, n0));
                assert(prev_end as int == unit_end_id(*u, n0));
            }
            (first_start, prev_end)
        },
    }
}

/// Translate a quantified unit: build the unit, then wire the Thompson
/// epsilon edges for `?`, `+`, or `*`.
#[verifier::rlimit(80)]
#[verifier::spinoff_prover]
fn build_item(it: &RegexItem, arena: &mut Vec<Node>, ids: &mut IdAlloc, base: usize) -> (se: (
    usize,
    usize,
))
    requires
        item_wf(*it),
        arena_ok(old(arena)@, base as int),
        old(ids).next == base + old(arena)@.len(),
        old(ids).next + item_id_count(*it) <= usize::MAX,
    ensures
        final(ids).next == old(ids).next + item_id_count(*it),
        final(arena)@.len() == old(arena)@.len() + item_id_count(*it),
        final(ids).next == base + final(arena)@.len(),
        arena_ok(final(arena)@, base as int),
        forall|j: int| 0 <= j < old(arena)@.len() ==> final(arena)@[j] == old(arena)@[j],
        se.0 == old(ids).next,
        old(ids).next <= se.1 < final(ids).next,
        region_edges_ok(
            final(arena)@,
            old(arena)@.len() as int,
            final(arena)@.len() as int,
            old(ids).next as int,
            final(ids).next as int,
        ),
        arena_edges(final(arena)@) == arena_edges(old(arena)@) + item_edge_count(*it),
        se.1 == item_end_id(*it, old(ids).next as int),
        built_of(final(arena)@.skip(old(arena)@.len() as int)) == thompson_item(
            *it,
            old(ids).next as int,
        ),
    decreases *it,
{
    let ghost a0 = arena@;
    let ghost n0 = ids.next as int;
    let se = build_unit(&it.unit, arena, ids, base);
    let s = se.0;
    let e = se.1;
    proof {
        lemma_thompson_unit_len(it.unit, n0);
        lemma_unit_end_id_range(it.unit, n0);
        lemma_unit_id_count_ge2(it.unit);
    }
    let ghost g = thompson_unit(it.unit, n0);
    match it.annotation {
        RegexAnnotation::OneOrZero => {
            let ghost a_c = arena@;
            arena_add_edge(arena, base, s, e, Option::None);
            proof {
                lemma_built_region_add_eps(a_c, arena@, a0.len() as int, a0.len() as int, e);
            }
        },
        RegexAnnotation::GreaterZero => {
            let ghost a_c = arena@;
            arena_add_edge(arena, base, e, s, Option::None);
            proof {
                lemma_built_region_add_eps(
                    a_c,
                    arena@,
                    a0.len() as int,
                    e as int - base as int,
                    s,
                );
            }
        },
        RegexAnnotation::AnyOccurs => {
            let ghost a_c = arena@;
            arena_add_edge(arena, base, s, e, Option::None);
            proof {
                lemma_built_region_add_eps(a_c, arena@, a0.len() as int, a0.len() as int, e);
            }
            let ghost a_c2 = arena@;
            arena_add_edge(arena, base, e, s, Option::None);
            proof {
                lemma_built_region_add_eps(
                    a_c2,
                    arena@,
                    a0.len() as int,
                    e as int - base as int,
                    s,
                );
            }
        },
        RegexAnnotation::StandAlone => {},
    }
    (s, e)
}

pub proof fn lemma_unit_id_count_ge2(u: RegexUnit)
    requires
        unit_wf(u),
    ensures
        unit_id_count(u) >= 2,
    decreases u,
{
    match u {
        RegexUnit::UnitChoice(us) => lemma_units_id_count_nonneg(us@),
        RegexUnit::ItemList(is) => lemma_items_id_count_wf_ge2(is@),
        RegexUnit::ItemChoice(is) => lemma_items_id_count_nonneg(is@),
        _ => {},
    }
}

pub proof fn lemma_items_id_count_wf_ge2(s: Seq<RegexItem>)
    requires
        s.len() > 0,
        items_wf(s),
    ensures
        items_id_count(s) >= 2,
    decreases s,
{
    assert(item_wf(s.last()));
    assert(unit_wf(s.last().unit));
    assert(item_id_count(s.last()) == unit_id_count(s.last().unit));
    if s.len() == 1 {
        lemma_unit_id_count_ge2(s.last().unit);
        assert(items_id_count(s.drop_last()) == 0);
    } else {
        lemma_items_id_count_wf_ge2(s.drop_last());
        lemma_unit_id_count_pos(s.last().unit);
    }
}

/// A fragment built under the arena discipline is well-formed.
pub proof fn lemma_arena_graph_wf(g: NFAGraph, base: int, next: int)
    requires
        arena_ok(g.nodes@, base),
        g.nodes@.len() > 0,
        next == base + g.nodes@.len(),
        g.start == base,
        base <= g.end < next,
        region_edges_ok(g.nodes@, 0, g.nodes@.len() as int, base, next),
    ensures
        g.wf(),
        g.ids_in_range(base, next),
{
    assert(g.nodes@[0].id == base);
    assert(g.contains_id(g.start as int));
    assert(g.nodes@[g.end - base].id == g.end as int);
    assert(g.contains_id(g.end as int));
    assert forall|i: int, k: int|
        0 <= i < g.nodes@.len() && 0 <= k < g.nodes@[i].edges@.len() implies g.contains_id(
        (#[trigger] g.nodes@[i].edges@[k]).next_node as int,
    ) by {
        let d = g.nodes@[i].edges@[k].next_node as int;
        assert(base <= d < next);
        assert(g.nodes@[d - base].id == d);
    }
    assert forall|i: int| 0 <= i < g.nodes@.len() implies (#[trigger] g.nodes@[i]).wf() by {
        assert forall|k: int|
            0 <= k < g.nodes@[i].edges@.len() implies (#[trigger] g.nodes@[
            i
        ].edges@[k]).wf() by {
            assert(region_edges_ok(g.nodes@, 0, g.nodes@.len() as int, base, next));
        }
    }
}

impl RegexUnit {
    /// Translate this unit into an NFA fragment over fresh state ids.
    pub fn nfa_graph(&self, ids: &mut IdAlloc) -> (r: NFAGraph)
        requires
            unit_wf(*self),
            old(ids).next + unit_id_count(*self) <= usize::MAX,
        ensures
            r.wf(),
            r.nodes@.len() == unit_id_count(*self),
            final(ids).next == old(ids).next + unit_id_count(*self),
            arena_ok(r.nodes@, old(ids).next as int),
            r.start == old(ids).next,
            old(ids).next <= r.end < final(ids).next,
            r.ids_in_range(old(ids).next as int, final(ids).next as int),
            seq_int_sum(r.edge_lens()) == unit_edge_count(*self),
            r.end == unit_end_id(*self, old(ids).next as int),
            built_of(r.nodes@) == thompson_unit(*self, old(ids).next as int),
    {
        let base = ids.next;
        let mut arena: Vec<Node> = Vec::new();
        let se = build_unit(self, &mut arena, ids, base);
        let g = NFAGraph { nodes: arena, start: se.0, end: se.1 };
        proof {
            lemma_unit_id_count_ge2(*self);
            lemma_arena_graph_wf(g, base as int, ids.next as int);
            assert(node_lens(Seq::<Node>::empty()) =~= Seq::<int>::empty());
            assert(g.edge_lens() =~= node_lens(g.nodes@));
            assert(g.nodes@.skip(0) =~= g.nodes@);
        }
        g
    }
}

impl RegexItem {
    /// Translate this quantified unit into an NFA fragment over fresh state
    /// ids, with the Thompson epsilon wiring for its quantifier.
    pub fn nfa_graph(&self, ids: &mut IdAlloc) -> (r: NFAGraph)
        requires
            item_wf(*self),
            old(ids).next + item_id_count(*self) <= usize::MAX,
        ensures
            r.wf(),
            r.nodes@.len() == item_id_count(*self),
            final(ids).next == old(ids).next + item_id_count(*self),
            arena_ok(r.nodes@, old(ids).next as int),
            r.start == old(ids).next,
            old(ids).next <= r.end < final(ids).next,
            r.ids_in_range(old(ids).next as int, final(ids).next as int),
            seq_int_sum(r.edge_lens()) == item_edge_count(*self),
            r.end == item_end_id(*self, old(ids).next as int),
            built_of(r.nodes@) == thompson_item(*self, old(ids).next as int),
    {
        let base = ids.next;
        let mut arena: Vec<Node> = Vec::new();
        let se = build_item(self, &mut arena, ids, base);
        let g = NFAGraph { nodes: arena, start: se.0, end: se.1 };
        proof {
            lemma_unit_id_count_ge2(self.unit);
            lemma_arena_graph_wf(g, base as int, ids.next as int);
            assert(node_lens(Seq::<Node>::empty()) =~= Seq::<int>::empty());
            assert(g.edge_lens() =~= node_lens(g.nodes@));
            assert(g.nodes@.skip(0) =~= g.nodes@);
        }
        g
    }
}


/// The bytes the grammar treats specially.
pub const BYTE_OPEN_CLASS: u8 = 91;

pub const BYTE_CLOSE_CLASS: u8 = 93;

pub const BYTE_OPEN_GROUP: u8 = 40;

pub const BYTE_CLOSE_GROUP: u8 = 41;

pub const BYTE_PIPE: u8 = 124;

pub const BYTE_BACKSLASH: u8 = 92;

pub const BYTE_DOT: u8 = 46;

pub const BYTE_NEWLINE: u8 = 10;

pub const BYTE_CARET: u8 = 94;

pub const BYTE_HYPHEN: u8 = 45;

pub const BYTE_QUESTION: u8 = 63;

pub const BYTE_PLUS: u8 = 43;

pub const BYTE_STAR: u8 = 42;

pub const BYTE_LOWER_A: u8 = 97;

pub const BYTE_LOWER_Z: u8 = 122;

pub const BYTE_UPPER_A: u8 = 65;

pub const BYTE_UPPER_Z: u8 = 90;

pub const BYTE_ZERO: u8 = 48;

pub const BYTE_NINE: u8 = 57;

pub const BYTE_LOWER_D: u8 = 100;

/// Why a pattern was rejected: input ended inside a construct, a bad
/// escape, or a class range with the wrong endpoint.
#[derive(Debug, PartialEq, Eq, Structural, Clone, Copy)]
pub enum ParseError {
    UnexpectedEnd,
    InvalidEscape,
    InvalidRange,
}

pub proof fn lemma_forall_units_wf(s: Seq<RegexUnit>)
    requires
        forall|i: int| 0 <= i < s.len() ==> unit_wf(#[trigger] s[i]),
    ensures
        units_wf(s),
    decreases s.len(),
{
    if s.len() > 0 {
        assert forall|i: int| 0 <= i < s.drop_last().len() implies unit_wf(
            #[trigger] s.drop_last()[i],
        ) by {
            assert(s.drop_last()[i] == s[i]);
        }
        lemma_forall_units_wf(s.drop_last());
    }
}

pub proof fn lemma_forall_items_wf(s: Seq<RegexItem>)
    requires
        forall|i: int| 0 <= i < s.len() ==> item_wf(#[trigger] s[i]),
    ensures
        items_wf(s),
    decreases s.len(),
{
    if s.len() > 0 {
        assert forall|i: int| 0 <= i < s.drop_last().len() implies item_wf(
            #[trigger] s.drop_last()[i],
        ) by {
            assert(s.drop_last()[i] == s[i]);
        }
        lemma_forall_items_wf(s.drop_last());
    }
}

/// The recursive-descent parser: a byte pattern and a cursor.
#[derive(Debug)]
pub struct RegexParser {
    pub input: Vec<u8>,
    pub pos: usize,
}

impl RegexParser {
    /// A parser over the whole pattern.
    pub fn new(pattern: &[u8]) -> (r: RegexParser)
        ensures
            r.input@ == pattern@,
            r.pos == 0,
    {
        RegexParser { input: slice_to_vec(pattern), pos: 0 }
    }

    /// Parse the whole remaining input as a concatenation of items: the
    /// tree the grammar assigns to it, or the first error.
    pub fn parse(&mut self) -> (r: Result<RegexItem, ParseError>)
        requires
            old(self).pos <= old(self).input@.len(),
        ensures
            final(self).input == old(self).input,
            final(self).pos <= final(self).input@.len(),
            (r matches Result::Ok(it) ==> it.annotation == RegexAnnotation::StandAlone && it.unit
                is ItemList && wrap_items(
                spec_parse_items(old(self).input@, old(self).pos as int),
            ) == ItemStep::Done(item_model(it), final(self).pos as int)),
            (r matches Result::Err(e) ==> wrap_items(
                spec_parse_items(old(self).input@, old(self).pos as int),
            ) == ItemStep::Fail(e)),
        decreases old(self).input@.len(), 4int,
    {
        let ghost inp = self.input@;
        let ghost pos0 = self.pos as int;
        let mut items: Vec<RegexItem> = Vec::new();
        proof {
            assert(items_prepend(items_model(items@), spec_parse_items(inp, pos0))
                =~~= spec_parse_items(inp, pos0));
        }
        while self.pos < self.input.len()
            invariant
                self.input == old(self).input,
                inp == self.input@,
                pos0 == old(self).pos,
                self.pos <= self.input@.len(),
                items_prepend(items_model(items@), spec_parse_items(inp, self.pos as int))
                    == spec_parse_items(inp, pos0),
            decreases self.input@.len() - self.pos,
        {
            let ghost cur = self.pos as int;
            match self.dispatch() {
                Result::Ok(item) => {
                    proof {
                        let m = item_model(item);
                        let p2 = self.pos as int;
                        assert(spec_dispatch(inp, cur) == ItemStep::Done(m, p2));
                        assert(spec_parse_items(inp, cur) == items_cons(
                            m,
                            spec_parse_items(inp, p2),
                        ));
                        lemma_items_prepend_cons(
                            items_model(items@),
                            m,
                            spec_parse_items(inp, p2),
                        );
                        lemma_items_model_push(items@, item);
                    }
                    items.push(item);
                },
                Result::Err(e) => {
                    proof {
                        assert(spec_parse_items(inp, cur) == ItemsStep::Fail(e));
                    }
                    return Result::Err(e);
                },
            }
        }
        proof {
            assert(spec_parse_items(inp, self.pos as int) == ItemsStep::Done(
                Seq::empty(),
                self.pos as int,
            ));
            assert(items_model(items@) + Seq::<ItemModel>::empty() =~= items_model(items@));
        }
        Result::Ok(
            RegexItem {
                unit: RegexUnit::ItemList(items),
                annotation: RegexAnnotation::StandAlone,
            },
        )
    }

    /// Parse one item, chosen by its first byte: a class, a group, or a
    /// single character.
    pub fn dispatch(&mut self) -> (r: Result<RegexItem, ParseError>)
        requires
            old(self).pos < old(self).input@.len(),
        ensures
            final(self).input == old(self).input,
            final(self).pos <= final(self).input@.len(),
            r is Ok ==> final(self).pos > old(self).pos,
            (r matches Result::Ok(it) ==> spec_dispatch(old(self).input@, old(self).pos as int)
                == ItemStep::Done(item_model(it), final(self).pos as int)),
            (r matches Result::Err(e) ==> spec_dispatch(old(self).input@, old(self).pos as int)
                == ItemStep::Fail(e)),
        decreases old(self).input@.len(), 3int,
    {
        let c = self.input[self.pos];
        if c == BYTE_OPEN_CLASS {
            self.parse_character_group()
        } else if c == BYTE_OPEN_GROUP {
            self.parse_item_group()
        } else {
            self.parse_character()
        }
    }

    /// Parse a single character item: an escape, the dot, or a literal,
    /// with its quantifier.
    pub fn parse_character(&mut self) -> (r: Result<RegexItem, ParseError>)
        requires
            old(self).pos < old(self).input@.len(),
        ensures
            final(self).input == old(self).input,
            final(self).pos <= final(self).input@.len(),
            r is Ok ==> final(self).pos > old(self).pos,
            (r matches Result::Ok(it) ==> item_wf(it) && spec_parse_character(
                old(self).input@,
                old(self).pos as int,
            ) == ItemStep::Done(item_model(it), final(self).pos as int)),
            (r matches Result::Err(e) ==> spec_parse_character(
                old(self).input@,
                old(self).pos as int,
            ) == ItemStep::Fail(e)),
        decreases old(self).input@.len(), 2int,
    {
        proof {
            lemma_vec_len_bound(&self.input);
        }
        let c = self.input[self.pos];
        if c == BYTE_BACKSLASH {
            self.parse_character_escape()
        } else if c == BYTE_DOT {
            self.pos = self.pos + 1;
            let a = self.parse_annotation();
            Result::Ok(RegexItem { unit: RegexUnit::NotCharacter(BYTE_NEWLINE), annotation: a })
        } else {
            self.pos = self.pos + 1;
            let a = self.parse_annotation();
            Result::Ok(RegexItem { unit: RegexUnit::Character(c), annotation: a })
        }
    }

    /// Parse a backslash escape: `\d` is the digit range, any other byte is
    /// itself.
    pub fn parse_character_escape(&mut self) -> (r: Result<RegexItem, ParseError>)
        requires
            old(self).pos < old(self).input@.len(),
            old(self).input@[old(self).pos as int] == BYTE_BACKSLASH,
        ensures
            final(self).input == old(self).input,
            final(self).pos <= final(self).input@.len(),
            r is Ok ==> final(self).pos > old(self).pos,
            (r matches Result::Ok(it) ==> item_wf(it) && spec_parse_character(
                old(self).input@,
                old(self).pos as int,
            ) == ItemStep::Done(item_model(it), final(self).pos as int)),
            (r matches Result::Err(e) ==> spec_parse_character(
                old(self).input@,
                old(self).pos as int,
            ) == ItemStep::Fail(e)),
        decreases old(self).input@.len(), 1int,
    {
        proof {
            lemma_vec_len_bound(&self.input);
        }
        self.pos = self.pos + 1;
        if self.pos >= self.input.len() {
            return Result::Err(ParseError::InvalidEscape);
        }
        let c = self.input[self.pos];
        self.pos = self.pos + 1;
        let a = self.parse_annotation();
        if c == BYTE_LOWER_D {
            Result::Ok(
                RegexItem { unit: RegexUnit::CharacterRange(BYTE_ZERO, BYTE_NINE), annotation: a },
            )
        } else {
            Result::Ok(RegexItem { unit: RegexUnit::Character(c), annotation: a })
        }
    }

    /// Parse a character class `[...]` or `[^...]`.
    pub fn parse_character_group(&mut self) -> (r: Result<RegexItem, ParseError>)
        requires
            old(self).pos < old(self).input@.len(),
            old(self).input@[old(self).pos as int] == BYTE_OPEN_CLASS,
        ensures
            final(self).input == old(self).input,
            final(self).pos <= final(self).input@.len(),
            r is Ok ==> final(self).pos > old(self).pos,
            (r matches Result::Ok(it) ==> item_wf(it) && (it.unit is NotUnits || it.unit
                is UnitChoice) && spec_parse_character_group(
                old(self).input@,
                old(self).pos as int,
            ) == ItemStep::Done(item_model(it), final(self).pos as int)),
            (r matches Result::Err(e) ==> spec_parse_character_group(
                old(self).input@,
                old(self).pos as int,
            ) == ItemStep::Fail(e)),
        decreases old(self).input@.len(), 2int,
    {
        let ghost inp = self.input@;
        let ghost pos0 = self.pos as int;
        proof {
            lemma_vec_len_bound(&self.input);
        }
        self.pos = self.pos + 1;
        let mut items: Vec<RegexUnit> = Vec::new();
        let mut not = false;
        if self.pos < self.input.len() && self.input[self.pos] == BYTE_CARET {
            self.pos = self.pos + 1;
            not = true;
        }
        if self.pos < self.input.len() && self.input[self.pos] == BYTE_HYPHEN {
            self.pos = self.pos + 1;
            items.push(RegexUnit::Character(BYTE_HYPHEN));
        }
        let ghost p3s = self.pos as int;
        let ghost target = class_prepend(units_model(items@), spec_class_items(inp, p3s));
        proof {
            if items@.len() == 1 {
                assert(units_model(items@) =~= seq![UnitModel::Char(BYTE_HYPHEN)]) by {
                    assert(items@.drop_last() =~= Seq::<RegexUnit>::empty());
                    assert(units_model(Seq::<RegexUnit>::empty()) == Seq::<UnitModel>::empty());
                    assert(items@.last() == RegexUnit::Character(BYTE_HYPHEN));
                    assert(unit_model(RegexUnit::Character(BYTE_HYPHEN)) == UnitModel::Char(
                        BYTE_HYPHEN,
                    ));
                    assert(units_model(items@) == units_model(items@.drop_last()).push(
                        unit_model(items@.last()),
                    ));
                }
            } else {
                assert(units_model(items@) =~= Seq::<UnitModel>::empty());
            }
            assert(group_head_ok(inp, pos0, not, p3s, target, units_model(items@)));
            assert(exists|pre: Seq<UnitModel>|
                group_head_ok(inp, pos0, not, p3s, target, pre));
        }
        while self.pos < self.input.len()
            invariant
                self.input == old(self).input,
                inp == self.input@,
                pos0 == old(self).pos,
                pos0 < self.pos <= self.input@.len(),
                forall|j: int| 0 <= j < items@.len() ==> class_atom(#[trigger] items@[j]),
                class_prepend(units_model(items@), spec_class_items(inp, self.pos as int))
                    == target,
                exists|pre: Seq<UnitModel>| group_head_ok(inp, pos0, not, p3s, target, pre),
            decreases self.input@.len() - self.pos,
        {
            let ghost cur = self.pos as int;
            let ghost m0 = units_model(items@);
            let c = self.input[self.pos];
            self.pos = self.pos + 1;
            if c == BYTE_BACKSLASH {
                if self.pos >= self.input.len() {
                    proof {
                        assert(spec_class_items(inp, cur) == ClassStep::Fail(
                            ParseError::InvalidEscape,
                        ));
                        lemma_group_finish(inp, pos0, not, p3s, target);
                    }
                    return Result::Err(ParseError::InvalidEscape);
                }
                let d = self.input[self.pos];
                self.pos = self.pos + 1;
                let unit = if d == BYTE_LOWER_D {
                    RegexUnit::CharacterRange(BYTE_ZERO, BYTE_NINE)
                } else {
                    RegexUnit::Character(d)
                };
                proof {
                    assert(spec_class_items(inp, cur) == class_cons(
                        unit_model(unit),
                        spec_class_items(inp, cur + 2),
                    ));
                    lemma_class_prepend_cons(m0, unit_model(unit), spec_class_items(inp, cur + 2));
                    lemma_units_model_push(items@, unit);
                }
                items.push(unit);
            } else if c == BYTE_LOWER_A || c == BYTE_UPPER_A || c == BYTE_ZERO {
                if self.pos < self.input.len() && self.input[self.pos] == BYTE_HYPHEN {
                    self.pos = self.pos + 1;
                    if self.pos >= self.input.len() {
                        proof {
                            assert(spec_class_items(inp, cur) == ClassStep::Fail(
                                ParseError::UnexpectedEnd,
                            ));
                            lemma_group_finish(inp, pos0, not, p3s, target);
                        }
                        return Result::Err(ParseError::UnexpectedEnd);
                    }
                    let e2 = self.input[self.pos];
                    self.pos = self.pos + 1;
                    let want: u8 = if c == BYTE_LOWER_A {
                        BYTE_LOWER_Z
                    } else if c == BYTE_UPPER_A {
                        BYTE_UPPER_Z
                    } else {
                        BYTE_NINE
                    };
                    if e2 == want {
                        let unit = RegexUnit::CharacterRange(c, e2);
                        proof {
                            assert(spec_class_items(inp, cur) == class_cons(
                                unit_model(unit),
                                spec_class_items(inp, cur + 3),
                            ));
                            lemma_class_prepend_cons(
                                m0,
                                unit_model(unit),
                                spec_class_items(inp, cur + 3),
                            );
                            lemma_units_model_push(items@, unit);
                        }
                        items.push(unit);
                    } else {
                        proof {
                            assert(spec_class_items(inp, cur) == ClassStep::Fail(
                                ParseError::InvalidRange,
                            ));
                            lemma_group_finish(inp, pos0, not, p3s, target);
                        }
                        return Result::Err(ParseError::InvalidRange);
                    }
                } else {
                    let unit = RegexUnit::Character(c);
                    proof {
                        assert(spec_class_items(inp, cur) == class_cons(
                            unit_model(unit),
                            spec_class_items(inp, cur + 1),
                        ));
                        lemma_class_prepend_cons(
                            m0,
                            unit_model(unit),
                            spec_class_items(inp, cur + 1),
                        );
                        lemma_units_model_push(items@, unit);
                    }
                    items.push(unit);
                }
            } else if c == BYTE_CLOSE_CLASS {
                proof {
                    assert(spec_class_items(inp, cur) == ClassStep::Done(Seq::empty(), cur + 1));
                    assert(units_model(items@) + Seq::<UnitModel>::empty() =~= units_model(
                        items@,
                    ));
                    assert(target == ClassStep::Done(units_model(items@), cur + 1));
                    lemma_group_finish(inp, pos0, not, p3s, target);
                }
                let a = self.parse_annotation();
                let ghost iv = items@;
                let unit = if not {
                    RegexUnit::NotUnits(items)
                } else {
                    RegexUnit::UnitChoice(items)
                };
                proof {
                    assert forall|j: int| 0 <= j < iv.len() implies unit_wf(
                        #[trigger] iv[j],
                    ) by {
                        assert(class_atom(iv[j]));
                    }
                    lemma_forall_units_wf(iv);
                    assert(unit_wf(unit));
                    assert(unit_model(unit) == (if not {
                        UnitModel::NotUnits(units_model(iv))
                    } else {
                        UnitModel::UnitChoice(units_model(iv))
                    }));
                }
                return Result::Ok(RegexItem { unit, annotation: a });
            } else {
                let unit = RegexUnit::Character(c);
                proof {
                    assert(spec_class_items(inp, cur) == class_cons(
                        unit_model(unit),
                        spec_class_items(inp, cur + 1),
                    ));
                    lemma_class_prepend_cons(m0, unit_model(unit), spec_class_items(inp, cur + 1));
                    lemma_units_model_push(items@, unit);
                }
                items.push(unit);
            }
        }
        proof {
            assert(spec_class_items(inp, self.pos as int) == ClassStep::Fail(
                ParseError::UnexpectedEnd,
            ));
            lemma_group_finish(inp, pos0, not, p3s, target);
        }
        Result::Err(ParseError::UnexpectedEnd)
    }

    /// Split a group body into its alternatives' byte segments: scan to the
    /// parenthesis that closes the group, tracking nesting depth; a pipe at
    /// depth zero separates alternatives.
    fn collect_segments(&mut self) -> (r: Result<Vec<Vec<u8>>, ParseError>)
        requires
            old(self).pos <= old(self).input@.len(),
        ensures
            final(self).input == old(self).input,
            final(self).pos <= final(self).input@.len(),
            (r matches Result::Ok(segs) ==> spec_segments(
                old(self).input@,
                old(self).pos as int,
                0,
            ) == SegStep::Done(bufs_view(segs@), final(self).pos as int)),
            (r matches Result::Err(e) ==> spec_segments(
                old(self).input@,
                old(self).pos as int,
                0,
            ) == SegStep::Fail(e)),
    {
        let ghost inp = self.input@;
        let ghost pos0 = self.pos as int;
        let mut segs: Vec<Vec<u8>> = Vec::new();
        let mut buffer: Vec<u8> = Vec::new();
        let mut depth: usize = 0;
        proof {
            lemma_vec_len_bound(&self.input);
            assert(bufs_view(segs@) =~= Seq::<Seq<u8>>::empty());
            if let SegStep::Done(ss, p) = spec_segments(inp, pos0, 0) {
                lemma_spec_segments_shape(inp, pos0, 0);
                assert(Seq::<Seq<u8>>::empty() + seq![buffer@ + ss[0]] + ss.drop_first()
                    =~= ss) by {
                    assert(buffer@ + ss[0] =~= ss[0]);
                }
            }
            assert(seg_extend(bufs_view(segs@), buffer@, spec_segments(inp, pos0, 0))
                =~~= spec_segments(inp, pos0, 0));
        }
        while self.pos < self.input.len()
            invariant
                self.input == old(self).input,
                inp == self.input@,
                pos0 == old(self).pos,
                self.pos <= self.input@.len(),
                depth <= self.pos,
                seg_extend(
                    bufs_view(segs@),
                    buffer@,
                    spec_segments(inp, self.pos as int, depth as int),
                ) == spec_segments(inp, pos0, 0),
            decreases self.input@.len() - self.pos,
        {
            let ghost cur = self.pos as int;
            let ghost sv = bufs_view(segs@);
            let ghost bv = buffer@;
            let c = self.input[self.pos];
            self.pos = self.pos + 1;
            if c == BYTE_CLOSE_GROUP && depth == 0 {
                proof {
                    assert(spec_segments(inp, cur, 0) == SegStep::Done(
                        seq![Seq::<u8>::empty()],
                        cur + 1,
                    ));
                    assert(seq![Seq::<u8>::empty()].drop_first() =~= Seq::<Seq<u8>>::empty());
                    assert(bv + seq![Seq::<u8>::empty()][0] =~= bv);
                    assert(sv + seq![bv] + Seq::<Seq<u8>>::empty() =~= sv.push(bv));
                    assert(seg_extend(sv, bv, SegStep::Done(seq![Seq::<u8>::empty()], cur + 1))
                        =~~= SegStep::Done(sv.push(bv), cur + 1));
                    assert(spec_segments(inp, pos0, 0) == SegStep::Done(sv.push(bv), cur + 1));
                }
                segs.push(buffer);
                proof {
                    assert(bufs_view(segs@) =~= sv.push(bv));
                }
                return Result::Ok(segs);
            } else if c == BYTE_PIPE && depth == 0 {
                proof {
                    lemma_spec_segments_shape(inp, cur + 1, 0);
                    assert(spec_segments(inp, cur, 0) == seg_new(spec_segments(inp, cur + 1, 0)));
                    lemma_seg_extend_new(sv, bv, spec_segments(inp, cur + 1, 0));
                }
                segs.push(buffer);
                buffer = Vec::new();
                proof {
                    assert(bufs_view(segs@) =~= sv.push(bv));
                    assert(buffer@ =~= Seq::<u8>::empty());
                }
            } else {
                let ghost d2: int = if c == BYTE_OPEN_GROUP {
                    depth as int + 1
                } else if c == BYTE_CLOSE_GROUP {
                    depth as int - 1
                } else {
                    depth as int
                };
                proof {
                    lemma_spec_segments_shape(inp, cur + 1, d2);
                    assert(spec_segments(inp, cur, depth as int) == seg_cons(
                        c,
                        spec_segments(inp, cur + 1, d2),
                    ));
                    lemma_seg_extend_cons(sv, bv, c, spec_segments(inp, cur + 1, d2));
                }
                if c == BYTE_OPEN_GROUP {
                    depth = depth + 1;
                } else if c == BYTE_CLOSE_GROUP {
                    depth = depth - 1;
                }
                buffer.push(c);
            }
        }
        proof {
            assert(spec_segments(inp, self.pos as int, depth as int) == SegStep::Fail(
                ParseError::UnexpectedEnd,
            ));
        }
        Result::Err(ParseError::UnexpectedEnd)
    }

    /// Parse a group `(...)`: the alternatives are the pipe-separated
    /// segments up to the parenthesis that closes the group, nesting
    /// respected, each parsed as a pattern of its own.
    pub fn parse_item_group(&mut self) -> (r: Result<RegexItem, ParseError>)
        requires
            old(self).pos < old(self).input@.len(),
            old(self).input@[old(self).pos as int] == BYTE_OPEN_GROUP,
        ensures
            final(self).input == old(self).input,
            final(self).pos <= final(self).input@.len(),
            r is Ok ==> final(self).pos > old(self).pos,
            (r matches Result::Ok(it) ==> (it.unit is ItemChoice) && spec_parse_item_group(
                old(self).input@,
                old(self).pos as int,
            ) == ItemStep::Done(item_model(it), final(self).pos as int)),
            (r matches Result::Err(e) ==> spec_parse_item_group(
                old(self).input@,
                old(self).pos as int,
            ) == ItemStep::Fail(e)),
        decreases old(self).input@.len(), 2int,
    {
        let ghost inp = self.input@;
        let ghost pos0 = self.pos as int;
        proof {
            lemma_vec_len_bound(&self.input);
        }
        self.pos = self.pos + 1;
        let segs = match self.collect_segments() {
            Result::Ok(s) => s,
            Result::Err(e) => {
                return Result::Err(e);
            },
        };
        let ghost ss = bufs_view(segs@);
        let ghost pend = self.pos as int;
        proof {
            assert(spec_segments(inp, pos0 + 1, 0) == SegStep::Done(ss, pend));
            lemma_spec_segments_shape(inp, pos0 + 1, 0);
            assert(segs_prepend(
                items_model(Seq::<RegexItem>::empty()),
                spec_parse_segments(ss),
            ) =~~= spec_parse_segments(ss)) by {
                if let SegsParse::Done(ms) = spec_parse_segments(ss) {
                    assert(Seq::<ItemModel>::empty() + ms =~= ms);
                }
            }
            assert(ss.skip(0) =~= ss);
        }
        let mut items: Vec<RegexItem> = Vec::new();
        let mut k: usize = 0;
        while k < segs.len()
            invariant
                self.input == old(self).input,
                inp == self.input@,
                pos0 == old(self).pos,
                pend == self.pos as int,
                self.pos <= self.input@.len(),
                k <= segs@.len(),
                ss == bufs_view(segs@),
                ss.len() == segs@.len(),
                spec_segments(inp, pos0 + 1, 0) == SegStep::Done(ss, pend),
                segs_prepend(items_model(items@), spec_parse_segments(ss.skip(k as int)))
                    == spec_parse_segments(ss),
            decreases segs@.len() - k,
        {
            proof {
                lemma_spec_segments_each_short(inp, pos0 + 1, 0, k as int);
                assert(ss[k as int].len() < inp.len());
                assert(ss.skip(k as int)[0] == ss[k as int]);
                assert(ss.skip(k as int).drop_first() =~= ss.skip(k as int + 1));
                lemma_seg_total_nonneg(ss.skip(k as int).drop_first());
            }
            let seg = segs[k].clone();
            proof {
                assert(seg@ == ss[k as int]);
                assert(seg@.len() < self.input@.len());
            }
            let mut sub = RegexParser { input: seg, pos: 0 };
            let ghost m0 = items_model(items@);
            match sub.parse() {
                Result::Ok(it) => {
                    proof {
                        assert(spec_parse_items(ss[k as int], 0) is Done);
                        if let ItemsStep::Done(ms, p) = spec_parse_items(ss[k as int], 0) {
                            assert(item_model(it) == (ItemModel {
                                unit: UnitModel::ItemList(ms),
                                annotation: RegexAnnotation::StandAlone,
                            }));
                        }
                        assert(spec_parse_segments(ss.skip(k as int)) == segs_cons(
                            item_model(it),
                            spec_parse_segments(ss.skip(k as int + 1)),
                        ));
                        lemma_segs_prepend_cons(
                            m0,
                            item_model(it),
                            spec_parse_segments(ss.skip(k as int + 1)),
                        );
                        lemma_items_model_push(items@, it);
                    }
                    items.push(it);
                },
                Result::Err(e) => {
                    proof {
                        assert(spec_parse_segments(ss.skip(k as int)) == SegsParse::Fail(e));
                        assert(spec_parse_segments(ss) == SegsParse::Fail(e));
                    }
                    return Result::Err(e);
                },
            }
            k = k + 1;
        }
        proof {
            assert(ss.skip(ss.len() as int) =~= Seq::<Seq<u8>>::empty());
            assert(spec_parse_segments(Seq::<Seq<u8>>::empty()) == SegsParse::Done(Seq::empty()));
            assert(items_model(items@) + Seq::<ItemModel>::empty() =~= items_model(items@));
            assert(spec_parse_segments(ss) == SegsParse::Done(items_model(items@)));
        }
        let a = self.parse_annotation();
        let ghost iv = items@;
        let r = RegexItem { unit: RegexUnit::ItemChoice(items), annotation: a };
        proof {
            assert(unit_model(r.unit) == UnitModel::ItemChoice(items_model(iv)));
        }
        Result::Ok(r)
    }

    /// Parse an optional quantifier after an atom.
    pub fn parse_annotation(&mut self) -> (r: RegexAnnotation)
        requires
            old(self).pos <= old(self).input@.len(),
        ensures
            final(self).input == old(self).input,
            old(self).pos <= final(self).pos <= final(self).input@.len(),
            (r, final(self).pos as int) == spec_annotation(
                old(self).input@,
                old(self).pos as int,
            ),
    {
        if self.pos < self.input.len() {
            let c = self.input[self.pos];
            if c == BYTE_QUESTION {
                self.pos = self.pos + 1;
                return RegexAnnotation::OneOrZero;
            }
            if c == BYTE_PLUS {
                self.pos = self.pos + 1;
                return RegexAnnotation::GreaterZero;
            }
            if c == BYTE_STAR {
                self.pos = self.pos + 1;
                return RegexAnnotation::AnyOccurs;
            }
        }
        RegexAnnotation::StandAlone
    }
}

/// The fixed relation between a class item's head (caret, leading hyphen)
/// and the position and members its body scan starts from.
pub open spec fn group_head_ok(
    inp: Seq<u8>,
    pos0: int,
    not: bool,
    p3s: int,
    target: ClassStep,
    pre: Seq<UnitModel>,
) -> bool {
    let p2s: int = if not {
        pos0 + 2
    } else {
        pos0 + 1
    };
    let hyph = p2s < inp.len() && inp[p2s] == BYTE_HYPHEN;
    &&& not == (pos0 + 1 < inp.len() && inp[pos0 + 1] == BYTE_CARET)
    &&& p3s == (if hyph {
        p2s + 1
    } else {
        p2s
    })
    &&& pre == (if hyph {
        seq![UnitModel::Char(BYTE_HYPHEN)]
    } else {
        Seq::<UnitModel>::empty()
    })
    &&& target == class_prepend(pre, spec_class_items(inp, p3s))
}

/// What the class item at `pos0` parses to, given its head relation and
/// where the member scan ended up.
pub proof fn lemma_group_finish(
    inp: Seq<u8>,
    pos0: int,
    not: bool,
    p3s: int,
    target: ClassStep,
)
    requires
        exists|pre: Seq<UnitModel>| group_head_ok(inp, pos0, not, p3s, target, pre),
    ensures
        (target matches ClassStep::Fail(e) ==> spec_parse_character_group(inp, pos0)
            == ItemStep::Fail(e)),
        (target matches ClassStep::Done(all, p4) ==> spec_parse_character_group(inp, pos0) == (
        {
            let a = spec_annotation(inp, p4);
            ItemStep::Done(
                ItemModel {
                    unit: if not {
                        UnitModel::NotUnits(all)
                    } else {
                        UnitModel::UnitChoice(all)
                    },
                    annotation: a.0,
                },
                a.1,
            )
        })),
{
    let pre = choose|pre: Seq<UnitModel>| group_head_ok(inp, pos0, not, p3s, target, pre);
    match spec_class_items(inp, p3s) {
        ClassStep::Fail(_) => {},
        ClassStep::Done(ms, p) => {
            assert(target == ClassStep::Done(pre + ms, p));
        },
    }
}

impl RegexItem {
    /// Parse a whole pattern into its tree.
    pub fn from_pattern(pattern: &[u8]) -> (r: Result<RegexItem, ParseError>)
        ensures
            (r matches Result::Ok(it) ==> it.annotation == RegexAnnotation::StandAlone && it.unit
                is ItemList && spec_parse(pattern@) == ItemStep::Done(
                item_model(it),
                pattern@.len() as int,
            )),
            (r matches Result::Err(e) ==> spec_parse(pattern@) == ItemStep::Fail(e)),
    {
        let mut p = RegexParser::new(pattern);
        let r = p.parse();
        proof {
            lemma_spec_parse_items_end(pattern@, 0);
        }
        r
    }

    /// Whether the Thompson translation accepts this tree: negated classes
    /// hold atoms only and no concatenation is empty.
    pub fn buildable(&self) -> (r: bool)
        ensures
            r == item_wf(*self),
        decreases *self,
    {
        buildable_unit(&self.unit)
    }
}

/// Whether the Thompson translation accepts this unit.
pub fn buildable_unit(u: &RegexUnit) -> (r: bool)
    ensures
        r == unit_wf(*u),
    decreases *u,
{
    match u {
        RegexUnit::Character(_) => true,
        RegexUnit::CharacterRange(_, _) => true,
        RegexUnit::NotCharacter(_) => true,
        RegexUnit::NotUnits(us) => {
            let mut i: usize = 0;
            while i < us.len()
                invariant
                    *u == RegexUnit::NotUnits(*us),
                    i <= us@.len(),
                    forall|j: int| 0 <= j < i ==> class_atom(#[trigger] us@[j]),
                decreases us@.len() - i,
            {
                let atom = match &us[i] {
                    RegexUnit::Character(_) => true,
                    RegexUnit::CharacterRange(_, _) => true,
                    _ => false,
                };
                if !atom {
                    proof {
                        assert(!class_atom(us@[i as int]));
                        assert(!unit_wf(*u)) by {
                            if unit_wf(*u) {
                                assert(us@ == u->NotUnits_0@);
                                assert(class_atom(u->NotUnits_0@[i as int]));
                            }
                        }
                    }
                    return false;
                }
                i = i + 1;
            }
            true
        },
        RegexUnit::UnitChoice(us) => {
            let mut i: usize = 0;
            while i < us.len()
                invariant
                    *u == RegexUnit::UnitChoice(*us),
                    i <= us@.len(),
                    forall|j: int| 0 <= j < i ==> unit_wf(#[trigger] us@[j]),
                decreases us@.len() - i,
            {
                proof {
                    assert(decreases_to!(*u => u->UnitChoice_0));
                    assert(decreases_to!(u->UnitChoice_0 => u->UnitChoice_0@));
                    assert(decreases_to!(u->UnitChoice_0@ => u->UnitChoice_0@[i as int]));
                    assert(us@[i as int] == u->UnitChoice_0@[i as int]);
                }
                if !buildable_unit(&us[i]) {
                    proof {
                        if units_wf(us@) {
                            lemma_units_wf_take(us@, i as int);
                        }
                    }
                    return false;
                }
                i = i + 1;
            }
            proof {
                lemma_forall_units_wf(us@);
            }
            true
        },
        RegexUnit::ItemList(is) => {
            if is.len() == 0 {
                return false;
            }
            let mut i: usize = 0;
            while i < is.len()
                invariant
                    *u == RegexUnit::ItemList(*is),
                    i <= is@.len(),
                    is@.len() > 0,
                    forall|j: int| 0 <= j < i ==> item_wf(#[trigger] is@[j]),
                decreases is@.len() - i,
            {
                proof {
                    assert(decreases_to!(*u => u->ItemList_0));
                    assert(decreases_to!(u->ItemList_0 => u->ItemList_0@));
                    assert(decreases_to!(u->ItemList_0@ => u->ItemList_0@[i as int]));
                    assert(is@[i as int] == u->ItemList_0@[i as int]);
                    assert(decreases_to!(is@[i as int] => is@[i as int].unit));
                }
                if !buildable_unit(&is[i].unit) {
                    proof {
                        if items_wf(is@) {
                            lemma_items_wf_take(is@, i as int);
                            assert(item_wf(is@[i as int]) == unit_wf(is@[i as int].unit));
                        }
                    }
                    return false;
                }
                proof {
                    assert(item_wf(is@[i as int]));
                }
                i = i + 1;
            }
            proof {
                lemma_forall_items_wf(is@);
            }
            true
        },
        RegexUnit::ItemChoice(is) => {
            if is.len() == 0 {
                return false;
            }
            let mut i: usize = 0;
            while i < is.len()
                invariant
                    *u == RegexUnit::ItemChoice(*is),
                    i <= is@.len(),
                    is@.len() > 0,
                    forall|j: int| 0 <= j < i ==> item_wf(#[trigger] is@[j]),
                decreases is@.len() - i,
            {
                proof {
                    assert(decreases_to!(*u => u->ItemChoice_0));
                    assert(decreases_to!(u->ItemChoice_0 => u->ItemChoice_0@));
                    assert(decreases_to!(u->ItemChoice_0@ => u->ItemChoice_0@[i as int]));
                    assert(is@[i as int] == u->ItemChoice_0@[i as int]);
                    assert(decreases_to!(is@[i as int] => is@[i as int].unit));
                }
                if !buildable_unit(&is[i].unit) {
                    proof {
                        if items_wf(is@) {
                            lemma_items_wf_take(is@, i as int);
                            assert(item_wf(is@[i as int]) == unit_wf(is@[i as int].unit));
                        }
                    }
                    return false;
                }
                proof {
                    assert(item_wf(is@[i as int]));
                }
                i = i + 1;
            }
            proof {
                lemma_forall_items_wf(is@);
            }
            true
        },
    }
}

pub const BYTE_LOWER_N: u8 = 110;

/// The canonical pattern text of a unit, as bytes.
pub open spec fn unit_pattern(u: RegexUnit) -> Seq<u8>
    decreases u,
{
    match u {
        RegexUnit::Character(c) => if c == BYTE_NEWLINE {
            seq![BYTE_BACKSLASH, BYTE_LOWER_N]
        } else {
            seq![c]
        },
        RegexUnit::CharacterRange(s, e) => seq![s, BYTE_HYPHEN, e],
        RegexUnit::NotCharacter(c) => if c == BYTE_NEWLINE {
            seq![BYTE_DOT]
        } else {
            seq![BYTE_OPEN_CLASS, BYTE_CARET, c, BYTE_CLOSE_CLASS]
        },
        RegexUnit::NotUnits(us) => seq![BYTE_OPEN_CLASS, BYTE_CARET] + units_pattern(us@)
            + seq![BYTE_CLOSE_CLASS],
        RegexUnit::UnitChoice(us) => seq![BYTE_OPEN_CLASS] + units_pattern(us@) + seq![
            BYTE_CLOSE_CLASS
        ],
        RegexUnit::ItemChoice(is) => seq![BYTE_OPEN_GROUP] + items_pattern_piped(is@) + seq![
            BYTE_CLOSE_GROUP
        ],
        RegexUnit::ItemList(is) => items_pattern(is@),
    }
}

pub open spec fn units_pattern(s: Seq<RegexUnit>) -> Seq<u8>
    decreases s,
{
    if s.len() == 0 {
        Seq::empty()
    } else {
        units_pattern(s.drop_last()) + unit_pattern(s.last())
    }
}

pub open spec fn item_pattern(it: RegexItem) -> Seq<u8>
    decreases it,
{
    unit_pattern(it.unit) + annotation_pattern(it.annotation)
}

/// The quantifier byte, if any.
pub open spec fn annotation_pattern(a: RegexAnnotation) -> Seq<u8> {
    match a {
        RegexAnnotation::StandAlone => Seq::empty(),
        RegexAnnotation::OneOrZero => seq![BYTE_QUESTION],
        RegexAnnotation::GreaterZero => seq![BYTE_PLUS],
        RegexAnnotation::AnyOccurs => seq![BYTE_STAR],
    }
}

pub open spec fn items_pattern(s: Seq<RegexItem>) -> Seq<u8>
    decreases s,
{
    if s.len() == 0 {
        Seq::empty()
    } else {
        items_pattern(s.drop_last()) + item_pattern(s.last())
    }
}

/// Alternatives joined by pipes.
pub open spec fn items_pattern_piped(s: Seq<RegexItem>) -> Seq<u8>
    decreases s,
{
    if s.len() == 0 {
        Seq::empty()
    } else if s.len() == 1 {
        item_pattern(s.last())
    } else {
        items_pattern_piped(s.drop_last()) + seq![BYTE_PIPE] + item_pattern(s.last())
    }
}

pub proof fn lemma_units_pattern_take(s: Seq<RegexUnit>, i: int)
    requires
        0 <= i < s.len(),
    ensures
        units_pattern(s.take(i + 1)) == units_pattern(s.take(i)) + unit_pattern(s[i]),
{
    assert(s.take(i + 1).drop_last() =~= s.take(i));
    assert(s.take(i + 1).last() == s[i]);
}

pub proof fn lemma_items_pattern_take(s: Seq<RegexItem>, i: int)
    requires
        0 <= i < s.len(),
    ensures
        items_pattern(s.take(i + 1)) == items_pattern(s.take(i)) + item_pattern(s[i]),
{
    assert(s.take(i + 1).drop_last() =~= s.take(i));
    assert(s.take(i + 1).last() == s[i]);
}

pub proof fn lemma_items_pattern_piped_take(s: Seq<RegexItem>, i: int)
    requires
        1 <= i < s.len(),
    ensures
        items_pattern_piped(s.take(i + 1)) == items_pattern_piped(s.take(i)) + seq![BYTE_PIPE]
            + item_pattern(s[i]),
{
    assert(s.take(i + 1).drop_last() =~= s.take(i));
    assert(s.take(i + 1).last() == s[i]);
}

/// Append the pattern text of one unit.
fn write_unit(u: &RegexUnit, out: &mut Vec<u8>)
    ensures
        final(out)@ == old(out)@ + unit_pattern(*u),
    decreases *u,
{
    let ghost o0 = out@;
    match u {
        RegexUnit::Character(c) => {
            if *c == BYTE_NEWLINE {
                out.push(BYTE_BACKSLASH);
                out.push(BYTE_LOWER_N);
            } else {
                out.push(*c);
            }
            proof {
                assert(out@ =~= o0 + unit_pattern(*u));
            }
        },
        RegexUnit::CharacterRange(s, e) => {
            out.push(*s);
            out.push(BYTE_HYPHEN);
            out.push(*e);
            proof {
                assert(out@ =~= o0 + unit_pattern(*u));
            }
        },
        RegexUnit::NotCharacter(c) => {
            if *c == BYTE_NEWLINE {
                out.push(BYTE_DOT);
            } else {
                out.push(BYTE_OPEN_CLASS);
                out.push(BYTE_CARET);
                out.push(*c);
                out.push(BYTE_CLOSE_CLASS);
            }
            proof {
                assert(out@ =~= o0 + unit_pattern(*u));
            }
        },
        RegexUnit::NotUnits(us) => {
            out.push(BYTE_OPEN_CLASS);
            out.push(BYTE_CARET);
            let mut i: usize = 0;
            while i < us.len()
                invariant
                    *u == RegexUnit::NotUnits(*us),
                    i <= us@.len(),
                    out@ == o0 + seq![BYTE_OPEN_CLASS, BYTE_CARET] + units_pattern(
                        us@.take(i as int),
                    ),
                decreases us@.len() - i,
            {
                proof {
                    assert(decreases_to!(*u => u->NotUnits_0));
                    assert(decreases_to!(u->NotUnits_0 => u->NotUnits_0@));
                    assert(decreases_to!(u->NotUnits_0@ => u->NotUnits_0@[i as int]));
                    assert(us@[i as int] == u->NotUnits_0@[i as int]);
                    lemma_units_pattern_take(us@, i as int);
                }
                write_unit(&us[i], out);
                i = i + 1;
            }
            out.push(BYTE_CLOSE_CLASS);
            proof {
                assert(us@.take(us@.len() as int) =~= us@);
                assert(out@ =~= o0 + unit_pattern(*u));
            }
        },
        RegexUnit::UnitChoice(us) => {
            out.push(BYTE_OPEN_CLASS);
            let mut i: usize = 0;
            while i < us.len()
                invariant
                    *u == RegexUnit::UnitChoice(*us),
                    i <= us@.len(),
                    out@ == o0 + seq![BYTE_OPEN_CLASS] + units_pattern(us@.take(i as int)),
                decreases us@.len() - i,
            {
                proof {
                    assert(decreases_to!(*u => u->UnitChoice_0));
                    assert(decreases_to!(u->UnitChoice_0 => u->UnitChoice_0@));
                    assert(decreases_to!(u->UnitChoice_0@ => u->UnitChoice_0@[i as int]));
                    assert(us@[i as int] == u->UnitChoice_0@[i as int]);
                    lemma_units_pattern_take(us@, i as int);
                }
                write_unit(&us[i], out);
                i = i + 1;
            }
            out.push(BYTE_CLOSE_CLASS);
            proof {
                assert(us@.take(us@.len() as int) =~= us@);
                assert(out@ =~= o0 + unit_pattern(*u));
            }
        },
        RegexUnit::ItemChoice(is) => {
            out.push(BYTE_OPEN_GROUP);
            let mut i: usize = 0;
            while i < is.len()
                invariant
                    *u == RegexUnit::ItemChoice(*is),
                    i <= is@.len(),
                    out@ == o0 + seq![BYTE_OPEN_GROUP] + items_pattern_piped(
                        is@.take(i as int),
                    ),
                decreases is@.len() - i,
            {
                proof {
                    assert(decreases_to!(*u => u->ItemChoice_0));
                    assert(decreases_to!(u->ItemChoice_0 => u->ItemChoice_0@));
                    assert(decreases_to!(u->ItemChoice_0@ => u->ItemChoice_0@[i as int]));
                    assert(is@[i as int] == u->ItemChoice_0@[i as int]);
                    if i >= 1 {
                        lemma_items_pattern_piped_take(is@, i as int);
                    } else {
                        assert(is@.take(1) =~= seq![is@[0]]);
                        assert(is@.take(1).last() == is@[0]);
                    }
                }
                if i > 0 {
                    out.push(BYTE_PIPE);
                }
                write_item(&is[i], out);
                i = i + 1;
                proof {
                    assert(out@ =~= o0 + seq![BYTE_OPEN_GROUP] + items_pattern_piped(
                        is@.take(i as int),
                    ));
                }
            }
            out.push(BYTE_CLOSE_GROUP);
            proof {
                assert(is@.take(is@.len() as int) =~= is@);
                assert(out@ =~= o0 + unit_pattern(*u));
            }
        },
        RegexUnit::ItemList(is) => {
            let mut i: usize = 0;
            while i < is.len()
                invariant
                    *u == RegexUnit::ItemList(*is),
                    i <= is@.len(),
                    out@ == o0 + items_pattern(is@.take(i as int)),
                decreases is@.len() - i,
            {
                proof {
                    assert(decreases_to!(*u => u->ItemList_0));
                    assert(decreases_to!(u->ItemList_0 => u->ItemList_0@));
                    assert(decreases_to!(u->ItemList_0@ => u->ItemList_0@[i as int]));
                    assert(is@[i as int] == u->ItemList_0@[i as int]);
                    lemma_items_pattern_take(is@, i as int);
                }
                write_item(&is[i], out);
                i = i + 1;
            }
            proof {
                assert(is@.take(is@.len() as int) =~= is@);
                assert(out@ =~= o0 + unit_pattern(*u));
            }
        },
    }
}

/// Append the pattern text of one item: its unit, then its quantifier.
fn write_item(it: &RegexItem, out: &mut Vec<u8>)
    ensures
        final(out)@ == old(out)@ + item_pattern(*it),
    decreases *it,
{
    let ghost o0 = out@;
    proof {
        assert(decreases_to!(*it => it.unit));
    }
    write_unit(&it.unit, out);
    match it.annotation {
        RegexAnnotation::OneOrZero => out.push(BYTE_QUESTION),
        RegexAnnotation::GreaterZero => out.push(BYTE_PLUS),
        RegexAnnotation::AnyOccurs => out.push(BYTE_STAR),
        RegexAnnotation::StandAlone => {},
    }
    proof {
        assert(out@ =~= o0 + item_pattern(*it));
    }
}

/// A byte sequence read as characters, one per byte.
pub open spec fn bytes_as_chars(v: Seq<u8>) -> Seq<char> {
    v.map_values(|b: u8| b as char)
}

/// Relies on String::from_utf8_lossy: bytes that are valid UTF-8 decode to
/// themselves, so a sequence of plain ASCII bytes becomes the string of
/// exactly those characters.
#[verifier::external_body]
fn bytes_to_string(v: Vec<u8>) -> (r: String)
    ensures
        (forall|i: int| 0 <= i < v@.len() ==> v@[i] < 128) ==> r@ == bytes_as_chars(v@),
{
    String::from_utf8_lossy(&v).into_owned()
}

impl RegexUnit {
    /// The canonical pattern text of this unit, as bytes.
    pub fn to_pattern(&self) -> (r: Vec<u8>)
        ensures
            r@ == unit_pattern(*self),
    {
        let mut out: Vec<u8> = Vec::new();
        write_unit(self, &mut out);
        proof {
            assert(out@ =~= unit_pattern(*self));
        }
        out
    }

    /// The canonical pattern text of this unit.  A pattern of plain ASCII
    /// bytes prints as exactly those characters.
    pub fn to_string(&self) -> (r: String)
        ensures
            (forall|i: int|
                0 <= i < unit_pattern(*self).len() ==> unit_pattern(*self)[i] < 128) ==> r@
                == bytes_as_chars(unit_pattern(*self)),
    {
        bytes_to_string(self.to_pattern())
    }
}

impl RegexItem {
    /// The canonical pattern text of this item, as bytes.
    pub fn to_pattern(&self) -> (r: Vec<u8>)
        ensures
            r@ == item_pattern(*self),
    {
        let mut out: Vec<u8> = Vec::new();
        write_item(self, &mut out);
        proof {
            assert(out@ =~= item_pattern(*self));
        }
        out
    }

    /// The canonical pattern text of this item.  A pattern of plain ASCII
    /// bytes prints as exactly those characters.
    pub fn to_string(&self) -> (r: String)
        ensures
            (forall|i: int|
                0 <= i < item_pattern(*self).len() ==> item_pattern(*self)[i] < 128) ==> r@
                == bytes_as_chars(item_pattern(*self)),
    {
        bytes_to_string(self.to_pattern())
    }
}

/// Number of edges the quantifier wiring adds.
pub open spec fn annotation_edge_count(a: RegexAnnotation) -> int {
    match a {
        RegexAnnotation::StandAlone => 0,
        RegexAnnotation::OneOrZero => 1,
        RegexAnnotation::GreaterZero => 1,
        RegexAnnotation::AnyOccurs => 2,
    }
}

/// Number of edges the translation draws for a unit.
pub open spec fn unit_edge_count(u: RegexUnit) -> int
    decreases u,
{
    match u {
        RegexUnit::Character(_) => 1,
        RegexUnit::CharacterRange(_, _) => 1,
        RegexUnit::NotCharacter(_) => 1,
        RegexUnit::NotUnits(_) => 1,
        RegexUnit::UnitChoice(us) => units_edge_count(us@) + 2 * us@.len(),
        RegexUnit::ItemList(is) => items_edge_count(is@) + is@.len() - 1,
        RegexUnit::ItemChoice(is) => items_edge_count(is@) + 2 * is@.len(),
    }
}

pub open spec fn units_edge_count(s: Seq<RegexUnit>) -> int
    decreases s,
{
    if s.len() == 0 {
        0
    } else {
        units_edge_count(s.drop_last()) + unit_edge_count(s.last())
    }
}

pub open spec fn item_edge_count(it: RegexItem) -> int
    decreases it,
{
    unit_edge_count(it.unit) + annotation_edge_count(it.annotation)
}

pub open spec fn items_edge_count(s: Seq<RegexItem>) -> int
    decreases s,
{
    if s.len() == 0 {
        0
    } else {
        items_edge_count(s.drop_last()) + item_edge_count(s.last())
    }
}

pub proof fn lemma_units_edge_count_take(s: Seq<RegexUnit>, i: int)
    requires
        0 <= i < s.len(),
    ensures
        units_edge_count(s.take(i + 1)) == units_edge_count(s.take(i)) + unit_edge_count(s[i]),
{
    assert(s.take(i + 1).drop_last() =~= s.take(i));
    assert(s.take(i + 1).last() == s[i]);
}

pub proof fn lemma_items_edge_count_take(s: Seq<RegexItem>, i: int)
    requires
        0 <= i < s.len(),
    ensures
        items_edge_count(s.take(i + 1)) == items_edge_count(s.take(i)) + item_edge_count(s[i]),
{
    assert(s.take(i + 1).drop_last() =~= s.take(i));
    assert(s.take(i + 1).last() == s[i]);
}

/// The edge counts of the nodes, in arena order.
pub open spec fn node_lens(a: Seq<Node>) -> Seq<int> {
    a.map_values(|n: Node| n.edges@.len() as int)
}

/// Total number of edges drawn in the arena.
pub open spec fn arena_edges(a: Seq<Node>) -> int {
    seq_int_sum(node_lens(a))
}

pub proof fn lemma_arena_edges_push(a: Seq<Node>, n: Node)
    ensures
        arena_edges(a.push(n)) == arena_edges(a) + n.edges@.len(),
{
    assert(node_lens(a.push(n)).drop_last() =~= node_lens(a));
    assert(node_lens(a.push(n)).last() == n.edges@.len() as int);
}

pub proof fn lemma_seq_int_sum_update(s: Seq<int>, i: int, v: int)
    requires
        0 <= i < s.len(),
    ensures
        seq_int_sum(s.update(i, v)) == seq_int_sum(s) - s[i] + v,
    decreases s.len(),
{
    if i == s.len() - 1 {
        assert(s.update(i, v).drop_last() =~= s.drop_last());
        assert(s.update(i, v).last() == v);
    } else {
        assert(s.update(i, v).drop_last() =~= s.drop_last().update(i, v));
        assert(s.update(i, v).last() == s.last());
        lemma_seq_int_sum_update(s.drop_last(), i, v);
    }
}

pub proof fn lemma_arena_edges_update(a: Seq<Node>, i: int, n: Node)
    requires
        0 <= i < a.len(),
    ensures
        arena_edges(a.update(i, n)) == arena_edges(a) - a[i].edges@.len() + n.edges@.len(),
{
    assert(node_lens(a.update(i, n)) =~= node_lens(a).update(i, n.edges@.len() as int));
    lemma_seq_int_sum_update(node_lens(a), i, n.edges@.len() as int);
}

/// Mathematical picture of a pattern unit.
#[verifier::ext_equal]
pub enum UnitModel {
    Char(u8),
    Range(u8, u8),
    NotChar(u8),
    NotUnits(Seq<UnitModel>),
    UnitChoice(Seq<UnitModel>),
    ItemList(Seq<ItemModel>),
    ItemChoice(Seq<ItemModel>),
}

/// Mathematical picture of a quantified unit.
#[verifier::ext_equal]
pub struct ItemModel {
    pub unit: UnitModel,
    pub annotation: RegexAnnotation,
}

pub open spec fn unit_model(u: RegexUnit) -> UnitModel
    decreases u,
{
    match u {
        RegexUnit::Character(c) => UnitModel::Char(c),
        RegexUnit::CharacterRange(a, b) => UnitModel::Range(a, b),
        RegexUnit::NotCharacter(c) => UnitModel::NotChar(c),
        RegexUnit::NotUnits(us) => UnitModel::NotUnits(units_model(us@)),
        RegexUnit::UnitChoice(us) => UnitModel::UnitChoice(units_model(us@)),
        RegexUnit::ItemList(is) => UnitModel::ItemList(items_model(is@)),
        RegexUnit::ItemChoice(is) => UnitModel::ItemChoice(items_model(is@)),
    }
}

pub open spec fn units_model(s: Seq<RegexUnit>) -> Seq<UnitModel>
    decreases s,
{
    if s.len() == 0 {
        Seq::empty()
    } else {
        units_model(s.drop_last()).push(unit_model(s.last()))
    }
}

pub open spec fn item_model(it: RegexItem) -> ItemModel
    decreases it,
{
    ItemModel { unit: unit_model(it.unit), annotation: it.annotation }
}

pub open spec fn items_model(s: Seq<RegexItem>) -> Seq<ItemModel>
    decreases s,
{
    if s.len() == 0 {
        Seq::empty()
    } else {
        items_model(s.drop_last()).push(item_model(s.last()))
    }
}

pub proof fn lemma_units_model_push(s: Seq<RegexUnit>, x: RegexUnit)
    ensures
        units_model(s.push(x)) == units_model(s).push(unit_model(x)),
{
    assert(s.push(x).drop_last() =~= s);
    assert(s.push(x).last() == x);
}

pub proof fn lemma_items_model_push(s: Seq<RegexItem>, x: RegexItem)
    ensures
        items_model(s.push(x)) == items_model(s).push(item_model(x)),
{
    assert(s.push(x).drop_last() =~= s);
    assert(s.push(x).last() == x);
}

/// The outcome of parsing one item: its picture and the position after it,
/// or the error.
#[verifier::ext_equal]
pub enum ItemStep {
    Done(ItemModel, int),
    Fail(ParseError),
}

/// The outcome of parsing an item sequence to the end of the input.
#[verifier::ext_equal]
pub enum ItemsStep {
    Done(Seq<ItemModel>, int),
    Fail(ParseError),
}

/// The outcome of reading class members up to the closing bracket.
#[verifier::ext_equal]
pub enum ClassStep {
    Done(Seq<UnitModel>, int),
    Fail(ParseError),
}

/// The outcome of splitting a group body into its alternatives' byte
/// segments, up to the closing parenthesis.
#[verifier::ext_equal]
pub enum SegStep {
    Done(Seq<Seq<u8>>, int),
    Fail(ParseError),
}

/// The outcome of parsing every segment of a group.
#[verifier::ext_equal]
pub enum SegsParse {
    Done(Seq<ItemModel>),
    Fail(ParseError),
}

/// The quantifier after an atom and the position after it.
pub open spec fn spec_annotation(inp: Seq<u8>, pos: int) -> (RegexAnnotation, int) {
    if pos < inp.len() && inp[pos] == BYTE_QUESTION {
        (RegexAnnotation::OneOrZero, pos + 1)
    } else if pos < inp.len() && inp[pos] == BYTE_PLUS {
        (RegexAnnotation::GreaterZero, pos + 1)
    } else if pos < inp.len() && inp[pos] == BYTE_STAR {
        (RegexAnnotation::AnyOccurs, pos + 1)
    } else {
        (RegexAnnotation::StandAlone, pos)
    }
}

/// One character item at `pos`: an escape, the dot, or a literal, with its
/// quantifier.
pub open spec fn spec_parse_character(inp: Seq<u8>, pos: int) -> ItemStep {
    let c = inp[pos];
    if c == BYTE_BACKSLASH {
        if pos + 1 >= inp.len() {
            ItemStep::Fail(ParseError::InvalidEscape)
        } else {
            let u = if inp[pos + 1] == BYTE_LOWER_D {
                UnitModel::Range(BYTE_ZERO, BYTE_NINE)
            } else {
                UnitModel::Char(inp[pos + 1])
            };
            let a = spec_annotation(inp, pos + 2);
            ItemStep::Done(ItemModel { unit: u, annotation: a.0 }, a.1)
        }
    } else if c == BYTE_DOT {
        let a = spec_annotation(inp, pos + 1);
        ItemStep::Done(ItemModel { unit: UnitModel::NotChar(BYTE_NEWLINE), annotation: a.0 }, a.1)
    } else {
        let a = spec_annotation(inp, pos + 1);
        ItemStep::Done(ItemModel { unit: UnitModel::Char(c), annotation: a.0 }, a.1)
    }
}

pub open spec fn class_cons(u: UnitModel, r: ClassStep) -> ClassStep {
    match r {
        ClassStep::Done(ms, p) => ClassStep::Done(seq![u] + ms, p),
        ClassStep::Fail(e) => ClassStep::Fail(e),
    }
}

pub open spec fn class_prepend(pre: Seq<UnitModel>, r: ClassStep) -> ClassStep {
    match r {
        ClassStep::Done(ms, p) => ClassStep::Done(pre + ms, p),
        ClassStep::Fail(e) => ClassStep::Fail(e),
    }
}

pub proof fn lemma_class_prepend_cons(pre: Seq<UnitModel>, u: UnitModel, r: ClassStep)
    ensures
        class_prepend(pre, class_cons(u, r)) == class_prepend(pre.push(u), r),
{
    match r {
        ClassStep::Done(ms, p) => {
            assert(pre + (seq![u] + ms) =~= pre.push(u) + ms);
            assert(class_prepend(pre, class_cons(u, r)) =~~= class_prepend(pre.push(u), r));
        },
        ClassStep::Fail(_) => {},
    }
}

/// The class members from `pos` up to and including the closing bracket:
/// `\d` and the three supported ranges as ranges, everything else literal.
pub open spec fn spec_class_items(inp: Seq<u8>, pos: int) -> ClassStep
    decreases inp.len() - pos,
{
    if pos >= inp.len() {
        ClassStep::Fail(ParseError::UnexpectedEnd)
    } else {
        let c = inp[pos];
        if c == BYTE_BACKSLASH {
            if pos + 1 >= inp.len() {
                ClassStep::Fail(ParseError::InvalidEscape)
            } else {
                let u = if inp[pos + 1] == BYTE_LOWER_D {
                    UnitModel::Range(BYTE_ZERO, BYTE_NINE)
                } else {
                    UnitModel::Char(inp[pos + 1])
                };
                class_cons(u, spec_class_items(inp, pos + 2))
            }
        } else if c == BYTE_LOWER_A || c == BYTE_UPPER_A || c == BYTE_ZERO {
            if pos + 1 < inp.len() && inp[pos + 1] == BYTE_HYPHEN {
                if pos + 2 >= inp.len() {
                    ClassStep::Fail(ParseError::UnexpectedEnd)
                } else {
                    let want: u8 = if c == BYTE_LOWER_A {
                        BYTE_LOWER_Z
                    } else if c == BYTE_UPPER_A {
                        BYTE_UPPER_Z
                    } else {
                        BYTE_NINE
                    };
                    if inp[pos + 2] == want {
                        class_cons(UnitModel::Range(c, want), spec_class_items(inp, pos + 3))
                    } else {
                        ClassStep::Fail(ParseError::InvalidRange)
                    }
                }
            } else {
                class_cons(UnitModel::Char(c), spec_class_items(inp, pos + 1))
            }
        } else if c == BYTE_CLOSE_CLASS {
            ClassStep::Done(Seq::empty(), pos + 1)
        } else {
            class_cons(UnitModel::Char(c), spec_class_items(inp, pos + 1))
        }
    }
}

/// A whole class item at `pos` (which holds the opening bracket): optional
/// caret, optional leading literal hyphen, the members, the quantifier.
pub open spec fn spec_parse_character_group(inp: Seq<u8>, pos: int) -> ItemStep {
    let p1 = pos + 1;
    let neg = p1 < inp.len() && inp[p1] == BYTE_CARET;
    let p2: int = if neg {
        p1 + 1
    } else {
        p1
    };
    let hyph = p2 < inp.len() && inp[p2] == BYTE_HYPHEN;
    let p3: int = if hyph {
        p2 + 1
    } else {
        p2
    };
    let pre: Seq<UnitModel> = if hyph {
        seq![UnitModel::Char(BYTE_HYPHEN)]
    } else {
        Seq::empty()
    };
    match spec_class_items(inp, p3) {
        ClassStep::Fail(e) => ItemStep::Fail(e),
        ClassStep::Done(ms, p4) => {
            let a = spec_annotation(inp, p4);
            ItemStep::Done(
                ItemModel {
                    unit: if neg {
                        UnitModel::NotUnits(pre + ms)
                    } else {
                        UnitModel::UnitChoice(pre + ms)
                    },
                    annotation: a.0,
                },
                a.1,
            )
        },
    }
}

pub open spec fn seg_new(r: SegStep) -> SegStep {
    match r {
        SegStep::Done(ss, p) => SegStep::Done(seq![Seq::<u8>::empty()] + ss, p),
        SegStep::Fail(e) => SegStep::Fail(e),
    }
}

pub open spec fn seg_cons(c: u8, r: SegStep) -> SegStep {
    match r {
        SegStep::Done(ss, p) => SegStep::Done(ss.update(0, seq![c] + ss[0]), p),
        SegStep::Fail(e) => SegStep::Fail(e),
    }
}

/// The alternatives' byte segments from `pos` to the parenthesis that
/// closes the group, tracking nesting depth: a pipe at depth zero separates
/// segments; nested parentheses and their contents stay inside a segment.
pub open spec fn spec_segments(inp: Seq<u8>, pos: int, depth: int) -> SegStep
    decreases inp.len() - pos,
{
    if pos >= inp.len() {
        SegStep::Fail(ParseError::UnexpectedEnd)
    } else {
        let c = inp[pos];
        if c == BYTE_CLOSE_GROUP && depth == 0 {
            SegStep::Done(seq![Seq::<u8>::empty()], pos + 1)
        } else if c == BYTE_PIPE && depth == 0 {
            seg_new(spec_segments(inp, pos + 1, 0))
        } else {
            let d2: int = if c == BYTE_OPEN_GROUP {
                depth + 1
            } else if c == BYTE_CLOSE_GROUP {
                depth - 1
            } else {
                depth
            };
            seg_cons(c, spec_segments(inp, pos + 1, d2))
        }
    }
}

/// Total byte count over the segments.
pub open spec fn seg_total(ss: Seq<Seq<u8>>) -> int
    decreases ss.len(),
{
    if ss.len() == 0 {
        0
    } else {
        ss[0].len() + seg_total(ss.drop_first())
    }
}

pub proof fn lemma_seg_total_nonneg(ss: Seq<Seq<u8>>)
    ensures
        seg_total(ss) >= 0,
    decreases ss.len(),
{
    if ss.len() > 0 {
        lemma_seg_total_nonneg(ss.drop_first());
    }
}

pub proof fn lemma_seg_total_at(ss: Seq<Seq<u8>>, i: int)
    requires
        0 <= i < ss.len(),
    ensures
        ss[i].len() <= seg_total(ss),
    decreases ss.len(),
{
    lemma_seg_total_nonneg(ss.drop_first());
    if i > 0 {
        lemma_seg_total_at(ss.drop_first(), i - 1);
        assert(ss.drop_first()[i - 1] == ss[i]);
    }
}

/// The shape of a successful segmentation: at least one segment, the end
/// position inside the input, and one input byte per segment byte plus one
/// per delimiter.
pub proof fn lemma_spec_segments_shape(inp: Seq<u8>, pos: int, depth: int)
    ensures
        (match spec_segments(inp, pos, depth) {
            SegStep::Done(ss, p) => ss.len() >= 1 && pos < p <= inp.len() && seg_total(ss)
                + ss.len() == p - pos,
            SegStep::Fail(_) => true,
        }),
    decreases inp.len() - pos,
{
    if pos < inp.len() {
        let c = inp[pos];
        if c == BYTE_CLOSE_GROUP && depth == 0 {
            assert(seg_total(seq![Seq::<u8>::empty()]) == 0) by {
                assert(seq![Seq::<u8>::empty()][0] =~= Seq::<u8>::empty());
                assert(seq![Seq::<u8>::empty()].drop_first() =~= Seq::<Seq<u8>>::empty());
                assert(seg_total(Seq::<Seq<u8>>::empty()) == 0);
            }
        } else if c == BYTE_PIPE && depth == 0 {
            lemma_spec_segments_shape(inp, pos + 1, 0);
            if let SegStep::Done(ss, p) = spec_segments(inp, pos + 1, 0) {
                let ss2 = seq![Seq::<u8>::empty()] + ss;
                assert(ss2.drop_first() =~= ss);
                assert(seg_total(ss2) == seg_total(ss));
            }
        } else {
            let d2: int = if c == BYTE_OPEN_GROUP {
                depth + 1
            } else if c == BYTE_CLOSE_GROUP {
                depth - 1
            } else {
                depth
            };
            lemma_spec_segments_shape(inp, pos + 1, d2);
            if let SegStep::Done(ss, p) = spec_segments(inp, pos + 1, d2) {
                let ss2 = ss.update(0, seq![c] + ss[0]);
                assert(ss2.drop_first() =~= ss.drop_first());
                assert(seg_total(ss2) == 1 + seg_total(ss)) by {
                    assert(ss2[0] == seq![c] + ss[0]);
                    assert(seg_total(ss2) == ss2[0].len() + seg_total(ss2.drop_first()));
                }
            }
        }
    }
}

/// Each segment of a successful segmentation is shorter than the scanned
/// region.
pub proof fn lemma_spec_segments_each_short(inp: Seq<u8>, pos: int, depth: int, i: int)
    requires
        spec_segments(inp, pos, depth) is Done,
        0 <= i < spec_segments(inp, pos, depth)->Done_0.len(),
    ensures
        spec_segments(inp, pos, depth)->Done_0[i].len() < inp.len() - pos,
{
    lemma_spec_segments_shape(inp, pos, depth);
    if let SegStep::Done(ss, p) = spec_segments(inp, pos, depth) {
        lemma_seg_total_at(ss, i);
    }
}

/// The listing of completed segments, the segment being scanned, and the
/// segmentation of the rest, stitched back together.
pub open spec fn seg_extend(done: Seq<Seq<u8>>, cur: Seq<u8>, r: SegStep) -> SegStep {
    match r {
        SegStep::Done(ss, p) => SegStep::Done(done + seq![cur + ss[0]] + ss.drop_first(), p),
        SegStep::Fail(e) => SegStep::Fail(e),
    }
}

pub proof fn lemma_seg_extend_cons(done: Seq<Seq<u8>>, cur: Seq<u8>, c: u8, r: SegStep)
    requires
        (r matches SegStep::Done(ss, _) ==> ss.len() >= 1),
    ensures
        seg_extend(done, cur, seg_cons(c, r)) == seg_extend(done, cur.push(c), r),
{
    match r {
        SegStep::Done(ss, p) => {
            let ss2 = ss.update(0, seq![c] + ss[0]);
            assert(ss2.drop_first() =~= ss.drop_first());
            assert(cur + ss2[0] =~= cur.push(c) + ss[0]);
            assert(done + seq![cur + ss2[0]] + ss2.drop_first() =~= done + seq![
                cur.push(c) + ss[0]
            ] + ss.drop_first());
            assert(seg_extend(done, cur, seg_cons(c, r)) =~~= seg_extend(done, cur.push(c), r));
        },
        SegStep::Fail(_) => {},
    }
}

pub proof fn lemma_seg_extend_new(done: Seq<Seq<u8>>, cur: Seq<u8>, r: SegStep)
    requires
        (r matches SegStep::Done(ss, _) ==> ss.len() >= 1),
    ensures
        seg_extend(done, cur, seg_new(r)) == seg_extend(done.push(cur), Seq::empty(), r),
{
    match r {
        SegStep::Done(ss, p) => {
            let ss2 = seq![Seq::<u8>::empty()] + ss;
            assert(ss2[0] =~= Seq::<u8>::empty());
            assert(cur + ss2[0] =~= cur);
            assert(ss2.drop_first() =~= ss);
            assert(Seq::<u8>::empty() + ss[0] =~= ss[0]);
            assert(done + seq![cur + ss2[0]] + ss2.drop_first() =~= done.push(cur) + seq![
                Seq::<u8>::empty() + ss[0]
            ] + ss.drop_first());
            assert(seg_extend(done, cur, seg_new(r)) =~~= seg_extend(
                done.push(cur),
                Seq::empty(),
                r,
            ));
        },
        SegStep::Fail(_) => {},
    }
}

pub open spec fn items_cons(m: ItemModel, r: ItemsStep) -> ItemsStep {
    match r {
        ItemsStep::Done(ms, p) => ItemsStep::Done(seq![m] + ms, p),
        ItemsStep::Fail(e) => ItemsStep::Fail(e),
    }
}

pub open spec fn items_prepend(pre: Seq<ItemModel>, r: ItemsStep) -> ItemsStep {
    match r {
        ItemsStep::Done(ms, p) => ItemsStep::Done(pre + ms, p),
        ItemsStep::Fail(e) => ItemsStep::Fail(e),
    }
}

pub proof fn lemma_items_prepend_cons(pre: Seq<ItemModel>, m: ItemModel, r: ItemsStep)
    ensures
        items_prepend(pre, items_cons(m, r)) == items_prepend(pre.push(m), r),
{
    match r {
        ItemsStep::Done(ms, p) => {
            assert(pre + (seq![m] + ms) =~= pre.push(m) + ms);
            assert(items_prepend(pre, items_cons(m, r)) =~~= items_prepend(pre.push(m), r));
        },
        ItemsStep::Fail(_) => {},
    }
}

pub open spec fn segs_cons(m: ItemModel, r: SegsParse) -> SegsParse {
    match r {
        SegsParse::Done(ms) => SegsParse::Done(seq![m] + ms),
        SegsParse::Fail(e) => SegsParse::Fail(e),
    }
}

pub open spec fn segs_prepend(pre: Seq<ItemModel>, r: SegsParse) -> SegsParse {
    match r {
        SegsParse::Done(ms) => SegsParse::Done(pre + ms),
        SegsParse::Fail(e) => SegsParse::Fail(e),
    }
}

pub proof fn lemma_segs_prepend_cons(pre: Seq<ItemModel>, m: ItemModel, r: SegsParse)
    ensures
        segs_prepend(pre, segs_cons(m, r)) == segs_prepend(pre.push(m), r),
{
    match r {
        SegsParse::Done(ms) => {
            assert(pre + (seq![m] + ms) =~= pre.push(m) + ms);
            assert(segs_prepend(pre, segs_cons(m, r)) =~~= segs_prepend(pre.push(m), r));
        },
        SegsParse::Fail(_) => {},
    }
}

/// The items of the input from `pos` to its end, each atom with its
/// quantifier, in input order; or the first error.
pub open spec fn spec_parse_items(inp: Seq<u8>, pos: int) -> ItemsStep
    decreases inp.len(), inp.len() - pos, 3int,
    when 0 <= pos <= inp.len()
{
    if pos >= inp.len() {
        ItemsStep::Done(Seq::empty(), pos)
    } else {
        match spec_dispatch(inp, pos) {
            ItemStep::Fail(e) => ItemsStep::Fail(e),
            ItemStep::Done(m, p2) => {
                let p3: int = if pos < p2 <= inp.len() {
                    p2
                } else {
                    pos + 1
                };
                items_cons(m, spec_parse_items(inp, p3))
            },
        }
    }
}

/// One item at `pos`, chosen by its first byte.
pub open spec fn spec_dispatch(inp: Seq<u8>, pos: int) -> ItemStep
    decreases inp.len(), inp.len() - pos, 2int,
    when 0 <= pos < inp.len()
{
    let c = inp[pos];
    if c == BYTE_OPEN_CLASS {
        spec_parse_character_group(inp, pos)
    } else if c == BYTE_OPEN_GROUP {
        spec_parse_item_group(inp, pos)
    } else {
        spec_parse_character(inp, pos)
    }
}

/// A group item at `pos` (which holds the opening parenthesis): one
/// alternative per segment, each parsed as a pattern of its own.
pub open spec fn spec_parse_item_group(inp: Seq<u8>, pos: int) -> ItemStep
    decreases inp.len(), inp.len() - pos, 1int,
    when 0 <= pos < inp.len()
{
    match spec_segments(inp, pos + 1, 0) {
        SegStep::Fail(e) => ItemStep::Fail(e),
        SegStep::Done(ss, p) => {
            proof {
                lemma_spec_segments_shape(inp, pos + 1, 0);
            }
            match spec_parse_segments(ss) {
                SegsParse::Fail(e) => ItemStep::Fail(e),
                SegsParse::Done(ms) => {
                    let a = spec_annotation(inp, p);
                    ItemStep::Done(
                        ItemModel { unit: UnitModel::ItemChoice(ms), annotation: a.0 },
                        a.1,
                    )
                },
            }
        },
    }
}

/// Each segment parsed as a whole pattern, in order; or the first error.
pub open spec fn spec_parse_segments(ss: Seq<Seq<u8>>) -> SegsParse
    decreases seg_total(ss) + ss.len(), 0int, 0int,
{
    if ss.len() == 0 {
        SegsParse::Done(Seq::empty())
    } else {
        proof {
            lemma_seg_total_nonneg(ss.drop_first());
            lemma_seg_total_nonneg(ss);
        }
        match spec_parse_items(ss[0], 0) {
            ItemsStep::Fail(e) => SegsParse::Fail(e),
            ItemsStep::Done(ms, _) => segs_cons(
                ItemModel {
                    unit: UnitModel::ItemList(ms),
                    annotation: RegexAnnotation::StandAlone,
                },
                spec_parse_segments(ss.drop_first()),
            ),
        }
    }
}

/// The whole input wrapped as the top-level concatenation.
pub open spec fn wrap_items(r: ItemsStep) -> ItemStep {
    match r {
        ItemsStep::Done(ms, p) => ItemStep::Done(
            ItemModel { unit: UnitModel::ItemList(ms), annotation: RegexAnnotation::StandAlone },
            p,
        ),
        ItemsStep::Fail(e) => ItemStep::Fail(e),
    }
}

/// The tree the grammar assigns to a whole pattern, or the error.
pub open spec fn spec_parse(inp: Seq<u8>) -> ItemStep {
    wrap_items(spec_parse_items(inp, 0))
}

/// A successful item listing always ends at the end of the input.
pub proof fn lemma_spec_parse_items_end(inp: Seq<u8>, pos: int)
    requires
        0 <= pos <= inp.len(),
    ensures
        (spec_parse_items(inp, pos) matches ItemsStep::Done(_, p) ==> p == inp.len()),
    decreases inp.len() - pos,
{
    if pos < inp.len() {
        match spec_dispatch(inp, pos) {
            ItemStep::Fail(_) => {},
            ItemStep::Done(m, p2) => {
                let p3: int = if pos < p2 <= inp.len() {
                    p2
                } else {
                    pos + 1
                };
                lemma_spec_parse_items_end(inp, p3);
            },
        }
    }
}

/// The byte views of a segment listing.
pub open spec fn bufs_view(s: Seq<Vec<u8>>) -> Seq<Seq<u8>> {
    s.map_values(|v: Vec<u8>| v@)
}

/// Mathematical picture of one built state: its id and its outgoing edges.
#[verifier::ext_equal]
pub struct BuiltNode {
    pub id: int,
    pub edges: Seq<EdgeModel>,
}

/// The node pictures of an arena slice, in order.
pub open spec fn built_of(a: Seq<Node>) -> Seq<BuiltNode> {
    a.map_values(|n: Node| BuiltNode { id: n.id as int, edges: edge_models(n.edges@) })
}

/// An epsilon edge to `d`.
pub open spec fn eps_to(d: int) -> EdgeModel {
    EdgeModel { pred: Option::None, next: d }
}

/// The nodes with one epsilon edge appended to the node at `idx`.
pub open spec fn add_eps(a: Seq<BuiltNode>, idx: int, dest: int) -> Seq<BuiltNode> {
    a.update(idx, BuiltNode { id: a[idx].id, edges: a[idx].edges.push(eps_to(dest)) })
}

/// The atoms a negated class collects, class atoms only, in order.
pub open spec fn class_atoms_model(s: Seq<RegexUnit>) -> Seq<AtomModel>
    decreases s,
{
    if s.len() == 0 {
        Seq::empty()
    } else {
        class_atoms_model(s.drop_last()) + (match s.last() {
            RegexUnit::Character(c) => seq![AtomModel::Char(c)],
            RegexUnit::CharacterRange(a, b) => seq![AtomModel::Range(a, b)],
            _ => Seq::empty(),
        })
    }
}

pub proof fn lemma_class_atoms_model_take(s: Seq<RegexUnit>, i: int)
    requires
        0 <= i < s.len(),
    ensures
        class_atoms_model(s.take(i + 1)) == class_atoms_model(s.take(i)) + (match s[i] {
            RegexUnit::Character(c) => seq![AtomModel::Char(c)],
            RegexUnit::CharacterRange(a, b) => seq![AtomModel::Range(a, b)],
            _ => Seq::<AtomModel>::empty(),
        }),
{
    assert(s.take(i + 1).drop_last() =~= s.take(i));
    assert(s.take(i + 1).last() == s[i]);
}

/// The id of a fragment's end state, given where it was placed.
pub open spec fn unit_end_id(u: RegexUnit, base: int) -> int
    decreases u,
{
    match u {
        RegexUnit::ItemList(is) => list_end_id(is@, base),
        _ => base + 1,
    }
}

pub open spec fn list_end_id(s: Seq<RegexItem>, base: int) -> int
    decreases s,
{
    if s.len() == 0 {
        base
    } else {
        item_end_id(s.last(), base + items_id_count(s.drop_last()))
    }
}

pub open spec fn item_end_id(it: RegexItem, base: int) -> int
    decreases it,
{
    unit_end_id(it.unit, base)
}

/// Two fresh states joined by one consuming edge.
pub open spec fn leaf_nodes(base: int, p: PredModel) -> Seq<BuiltNode> {
    seq![
        BuiltNode {
            id: base,
            edges: seq![EdgeModel { pred: Option::Some(p), next: base + 1 }],
        },
        BuiltNode { id: base + 1, edges: Seq::empty() },
    ]
}

pub open spec fn empty_node(id: int) -> BuiltNode {
    BuiltNode { id, edges: Seq::empty() }
}

/// The start state of a class or pipe alternation: one epsilon edge per
/// alternative, to that alternative's start.
pub open spec fn unit_choice_start_node(s: Seq<RegexUnit>, base: int) -> BuiltNode {
    BuiltNode {
        id: base,
        edges: Seq::new(s.len(), |i: int| eps_to(base + 2 + units_id_count(s.take(i)))),
    }
}

pub open spec fn item_choice_start_node(s: Seq<RegexItem>, base: int) -> BuiltNode {
    BuiltNode {
        id: base,
        edges: Seq::new(s.len(), |i: int| eps_to(base + 2 + items_id_count(s.take(i)))),
    }
}

/// The Thompson fragment of a unit placed at `base`: each construct draws
/// exactly the edges of the construction table, ids consecutive from
/// `base`, the start state first.
pub open spec fn thompson_unit(u: RegexUnit, base: int) -> Seq<BuiltNode>
    decreases u,
{
    match u {
        RegexUnit::Character(c) => leaf_nodes(base, PredModel::Char(c)),
        RegexUnit::CharacterRange(a, b) => leaf_nodes(base, PredModel::Range(a, b)),
        RegexUnit::NotCharacter(c) => leaf_nodes(base, PredModel::Neg(seq![AtomModel::Char(c)])),
        RegexUnit::NotUnits(us) => leaf_nodes(base, PredModel::Neg(class_atoms_model(us@))),
        RegexUnit::UnitChoice(us) => seq![unit_choice_start_node(us@, base), empty_node(base + 1)]
            + choice_units(us@, base, base + 1),
        RegexUnit::ItemChoice(is) => seq![
            item_choice_start_node(is@, base),
            empty_node(base + 1),
        ] + choice_items(is@, base, base + 1),
        RegexUnit::ItemList(is) => list_items(is@, base),
    }
}

/// The alternatives of a class alternation, each wired to the shared end.
pub open spec fn choice_units(s: Seq<RegexUnit>, base: int, pend: int) -> Seq<BuiltNode>
    decreases s,
{
    if s.len() == 0 {
        Seq::empty()
    } else {
        let lb = base + 2 + units_id_count(s.drop_last());
        choice_units(s.drop_last(), base, pend) + add_eps(
            thompson_unit(s.last(), lb),
            unit_end_id(s.last(), lb) - lb,
            pend,
        )
    }
}

/// The alternatives of a pipe alternation, each wired to the shared end.
pub open spec fn choice_items(s: Seq<RegexItem>, base: int, pend: int) -> Seq<BuiltNode>
    decreases s,
{
    if s.len() == 0 {
        Seq::empty()
    } else {
        let lb = base + 2 + items_id_count(s.drop_last());
        choice_items(s.drop_last(), base, pend) + add_eps(
            thompson_item(s.last(), lb),
            item_end_id(s.last(), lb) - lb,
            pend,
        )
    }
}

/// A concatenation: the fragments side by side, each end wired by epsilon
/// to the next fragment's start.
pub open spec fn list_items(s: Seq<RegexItem>, base: int) -> Seq<BuiltNode>
    decreases s,
{
    if s.len() == 0 {
        Seq::empty()
    } else if s.len() == 1 {
        thompson_item(s.last(), base)
    } else {
        let lb = base + items_id_count(s.drop_last());
        add_eps(list_items(s.drop_last(), base), list_end_id(s.drop_last(), base) - base, lb)
            + thompson_item(s.last(), lb)
    }
}

/// A quantified fragment: the unit's fragment with the epsilon wiring of
/// its quantifier.
pub open spec fn thompson_item(it: RegexItem, base: int) -> Seq<BuiltNode>
    decreases it,
{
    let g = thompson_unit(it.unit, base);
    let e = unit_end_id(it.unit, base);
    match it.annotation {
        RegexAnnotation::StandAlone => g,
        RegexAnnotation::OneOrZero => add_eps(g, 0, e),
        RegexAnnotation::GreaterZero => add_eps(g, e - base, base),
        RegexAnnotation::AnyOccurs => add_eps(add_eps(g, 0, e), e - base, base),
    }
}

pub proof fn lemma_add_eps_concat(a: Seq<BuiltNode>, b: Seq<BuiltNode>, k: int, d: int)
    requires
        0 <= k < b.len(),
    ensures
        add_eps(a + b, a.len() + k, d) == a + add_eps(b, k, d),
{
    assert((a + b)[a.len() + k] == b[k]);
    assert(add_eps(a + b, a.len() + k, d) =~= a + add_eps(b, k, d));
}

/// A well-formed fragment holds exactly its allocation's worth of nodes.
pub proof fn lemma_thompson_unit_len(u: RegexUnit, base: int)
    requires
        unit_wf(u),
    ensures
        thompson_unit(u, base).len() == unit_id_count(u),
    decreases u,
{
    match u {
        RegexUnit::UnitChoice(us) => lemma_choice_units_len(us@, base, base + 1),
        RegexUnit::ItemChoice(is) => lemma_choice_items_len(is@, base, base + 1),
        RegexUnit::ItemList(is) => lemma_list_items_len(is@, base),
        _ => {},
    }
}

pub proof fn lemma_choice_units_len(s: Seq<RegexUnit>, base: int, pend: int)
    requires
        units_wf(s),
    ensures
        choice_units(s, base, pend).len() == units_id_count(s),
    decreases s,
{
    if s.len() > 0 {
        let lb = base + 2 + units_id_count(s.drop_last());
        lemma_choice_units_len(s.drop_last(), base, pend);
        lemma_thompson_unit_len(s.last(), lb);
        lemma_unit_end_id_range(s.last(), lb);
        lemma_unit_id_count_ge2(s.last());
    }
}

pub proof fn lemma_choice_items_len(s: Seq<RegexItem>, base: int, pend: int)
    requires
        items_wf(s),
    ensures
        choice_items(s, base, pend).len() == items_id_count(s),
    decreases s,
{
    if s.len() > 0 {
        let lb = base + 2 + items_id_count(s.drop_last());
        lemma_choice_items_len(s.drop_last(), base, pend);
        lemma_thompson_item_len(s.last(), lb);
        lemma_item_end_id_range(s.last(), lb);
        lemma_unit_id_count_ge2(s.last().unit);
    }
}

/// The end of a well-formed concatenation lies inside its allocation.
pub proof fn lemma_list_end_id_range(s: Seq<RegexItem>, base: int)
    requires
        s.len() > 0,
        items_wf(s),
    ensures
        base <= list_end_id(s, base) < base + items_id_count(s),
{
    lemma_item_end_id_range(s.last(), base + items_id_count(s.drop_last()));
    lemma_items_id_count_nonneg(s.drop_last());
}

pub proof fn lemma_list_items_len(s: Seq<RegexItem>, base: int)
    requires
        items_wf(s),
    ensures
        list_items(s, base).len() == items_id_count(s),
    decreases s,
{
    if s.len() == 1 {
        lemma_thompson_item_len(s.last(), base);
        assert(items_id_count(s.drop_last()) == 0);
    } else if s.len() > 1 {
        let lb = base + items_id_count(s.drop_last());
        lemma_list_items_len(s.drop_last(), base);
        lemma_thompson_item_len(s.last(), lb);
        lemma_list_end_id_range(s.drop_last(), base);
    }
}

pub proof fn lemma_thompson_item_len(it: RegexItem, base: int)
    requires
        item_wf(it),
    ensures
        thompson_item(it, base).len() == item_id_count(it),
    decreases it,
{
    lemma_thompson_unit_len(it.unit, base);
    lemma_unit_end_id_range(it.unit, base);
    lemma_unit_id_count_ge2(it.unit);
}

/// A well-formed fragment's end lies inside its allocation.
pub proof fn lemma_unit_end_id_range(u: RegexUnit, base: int)
    requires
        unit_wf(u),
    ensures
        base <= unit_end_id(u, base) < base + unit_id_count(u),
    decreases u,
{
    match u {
        RegexUnit::ItemList(is) => {
            lemma_items_wf_take(is@, is@.len() - 1);
            assert(is@.drop_last() =~= is@.take(is@.len() - 1));
            lemma_items_wf_prefix(is@, is@.len() - 1);
            lemma_item_end_id_range(is@.last(), base + items_id_count(is@.drop_last()));
            lemma_items_id_count_nonneg(is@.drop_last());
            assert(items_id_count(is@) == items_id_count(is@.drop_last()) + item_id_count(
                is@.last(),
            ));
        },
        RegexUnit::UnitChoice(us) => {
            lemma_units_id_count_nonneg(us@);
        },
        RegexUnit::ItemChoice(is) => {
            lemma_items_id_count_nonneg(is@);
        },
        _ => {},
    }
}

pub proof fn lemma_item_end_id_range(it: RegexItem, base: int)
    requires
        item_wf(it),
    ensures
        base <= item_end_id(it, base) < base + item_id_count(it),
    decreases it,
{
    lemma_unit_end_id_range(it.unit, base);
}

pub proof fn lemma_add_eps_concat_left(a: Seq<BuiltNode>, b: Seq<BuiltNode>, k: int, d: int)
    requires
        0 <= k < a.len(),
    ensures
        add_eps(a + b, k, d) == add_eps(a, k, d) + b,
{
    assert((a + b)[k] == a[k]);
    assert(add_eps(a + b, k, d) =~= add_eps(a, k, d) + b);
}

/// One appended epsilon edge, seen through the region pictures.
pub proof fn lemma_built_region_add_eps(
    a_old: Seq<Node>,
    a_new: Seq<Node>,
    m: int,
    gidx: int,
    dest: usize,
)
    requires
        a_new.len() == a_old.len(),
        0 <= m <= gidx < a_old.len(),
        forall|j: int| 0 <= j < a_old.len() && j != gidx ==> a_new[j] == a_old[j],
        a_new[gidx].id == a_old[gidx].id,
        a_new[gidx].edges@ == a_old[gidx].edges@.push(
            (Edge { matches: Option::None, next_node: dest }),
        ),
    ensures
        built_of(a_new.skip(m)) == add_eps(built_of(a_old.skip(m)), gidx - m, dest as int),
{
    assert(edge_models(a_new[gidx].edges@) =~= edge_models(a_old[gidx].edges@).push(
        eps_to(dest as int),
    ));
    assert(built_of(a_old.skip(m))[gidx - m] == (BuiltNode {
        id: a_old[gidx].id as int,
        edges: edge_models(a_old[gidx].edges@),
    }));
    assert(built_of(a_new.skip(m)) =~= add_eps(
        built_of(a_old.skip(m)),
        gidx - m,
        dest as int,
    ));
}

/// A grown arena, seen through the region pictures: the old region then
/// the new nodes.
pub proof fn lemma_built_region_append(a_old: Seq<Node>, a_new: Seq<Node>, m: int)
    requires
        0 <= m <= a_old.len() <= a_new.len(),
        forall|j: int| 0 <= j < a_old.len() ==> a_new[j] == a_old[j],
    ensures
        built_of(a_new.skip(m)) == built_of(a_old.skip(m)) + built_of(
            a_new.skip(a_old.len() as int),
        ),
{
    assert(built_of(a_new.skip(m)) =~= built_of(a_old.skip(m)) + built_of(
        a_new.skip(a_old.len() as int),
    ));
}

pub proof fn lemma_choice_units_take(s: Seq<RegexUnit>, i: int, base: int, pend: int)
    requires
        0 <= i < s.len(),
    ensures
        choice_units(s.take(i + 1), base, pend) == choice_units(s.take(i), base, pend)
            + add_eps(
            thompson_unit(s[i], base + 2 + units_id_count(s.take(i))),
            unit_end_id(s[i], base + 2 + units_id_count(s.take(i))) - (base + 2
                + units_id_count(s.take(i))),
            pend,
        ),
{
    assert(s.take(i + 1).drop_last() =~= s.take(i));
    assert(s.take(i + 1).last() == s[i]);
}

pub proof fn lemma_choice_items_take(s: Seq<RegexItem>, i: int, base: int, pend: int)
    requires
        0 <= i < s.len(),
    ensures
        choice_items(s.take(i + 1), base, pend) == choice_items(s.take(i), base, pend)
            + add_eps(
            thompson_item(s[i], base + 2 + items_id_count(s.take(i))),
            item_end_id(s[i], base + 2 + items_id_count(s.take(i))) - (base + 2
                + items_id_count(s.take(i))),
            pend,
        ),
{
    assert(s.take(i + 1).drop_last() =~= s.take(i));
    assert(s.take(i + 1).last() == s[i]);
}

pub proof fn lemma_list_items_take(s: Seq<RegexItem>, i: int, base: int)
    requires
        1 <= i < s.len(),
    ensures
        list_items(s.take(i + 1), base) == add_eps(
            list_items(s.take(i), base),
            list_end_id(s.take(i), base) - base,
            base + items_id_count(s.take(i)),
        ) + thompson_item(s[i], base + items_id_count(s.take(i))),
        list_end_id(s.take(i + 1), base) == item_end_id(s[i], base + items_id_count(s.take(i))),
{
    assert(s.take(i + 1).drop_last() =~= s.take(i));
    assert(s.take(i + 1).last() == s[i]);
}

pub proof fn lemma_list_items_one(s: Seq<RegexItem>, base: int)
    requires
        s.len() >= 1,
    ensures
        list_items(s.take(1), base) == thompson_item(s[0], base),
        list_end_id(s.take(1), base) == item_end_id(s[0], base),
{
    assert(s.take(1).drop_last() =~= Seq::<RegexItem>::empty());
    assert(s.take(1).last() == s[0]);
    assert(items_id_count(Seq::<RegexItem>::empty()) == 0);
}

pub proof fn lemma_units_model_len(s: Seq<RegexUnit>)
    ensures
        units_model(s).len() == s.len(),
    decreases s.len(),
{
    if s.len() > 0 {
        lemma_units_model_len(s.drop_last());
    }
}

pub proof fn lemma_units_model_at(s: Seq<RegexUnit>, i: int)
    requires
        0 <= i < s.len(),
    ensures
        units_model(s).len() == s.len(),
        units_model(s)[i] == unit_model(s[i]),
    decreases s.len(),
{
    lemma_units_model_len(s);
    if i == s.len() - 1 {
        lemma_units_model_len(s.drop_last());
    } else {
        lemma_units_model_at(s.drop_last(), i);
        assert(s.drop_last()[i] == s[i]);
    }
}

pub proof fn lemma_items_model_len(s: Seq<RegexItem>)
    ensures
        items_model(s).len() == s.len(),
    decreases s.len(),
{
    if s.len() > 0 {
        lemma_items_model_len(s.drop_last());
    }
}

pub proof fn lemma_items_model_at(s: Seq<RegexItem>, i: int)
    requires
        0 <= i < s.len(),
    ensures
        items_model(s).len() == s.len(),
        items_model(s)[i] == item_model(s[i]),
    decreases s.len(),
{
    lemma_items_model_len(s);
    if i == s.len() - 1 {
        lemma_items_model_len(s.drop_last());
    } else {
        lemma_items_model_at(s.drop_last(), i);
        assert(s.drop_last()[i] == s[i]);
    }
}

pub proof fn lemma_units_model_drop_last(sa: Seq<RegexUnit>, sb: Seq<RegexUnit>)
    requires
        sa.len() > 0,
        units_model(sa) == units_model(sb),
    ensures
        sb.len() == sa.len(),
        units_model(sa.drop_last()) == units_model(sb.drop_last()),
        unit_model(sa.last()) == unit_model(sb.last()),
{
    lemma_units_model_len(sa);
    lemma_units_model_len(sb);
    lemma_units_model_len(sa.drop_last());
    lemma_units_model_len(sb.drop_last());
    assert(units_model(sa.drop_last()) =~= units_model(sa).drop_last());
    assert(units_model(sb.drop_last()) =~= units_model(sb).drop_last());
    lemma_units_model_at(sa, sa.len() - 1);
    lemma_units_model_at(sb, sb.len() - 1);
}

pub proof fn lemma_items_model_drop_last(sa: Seq<RegexItem>, sb: Seq<RegexItem>)
    requires
        sa.len() > 0,
        items_model(sa) == items_model(sb),
    ensures
        sb.len() == sa.len(),
        items_model(sa.drop_last()) == items_model(sb.drop_last()),
        item_model(sa.last()) == item_model(sb.last()),
{
    lemma_items_model_len(sa);
    lemma_items_model_len(sb);
    lemma_items_model_len(sa.drop_last());
    lemma_items_model_len(sb.drop_last());
    assert(items_model(sa.drop_last()) =~= items_model(sa).drop_last());
    assert(items_model(sb.drop_last()) =~= items_model(sb).drop_last());
    lemma_items_model_at(sa, sa.len() - 1);
    lemma_items_model_at(sb, sb.len() - 1);
}

/// Trees with one picture allocate alike.
pub proof fn lemma_unit_id_count_congruent(a: RegexUnit, b: RegexUnit)
    requires
        unit_model(a) == unit_model(b),
    ensures
        unit_id_count(a) == unit_id_count(b),
    decreases a,
{
    match (a, b) {
        (RegexUnit::UnitChoice(ua), RegexUnit::UnitChoice(ub)) => {
            lemma_units_id_count_congruent(ua@, ub@);
        },
        (RegexUnit::ItemChoice(ia), RegexUnit::ItemChoice(ib)) => {
            lemma_items_id_count_congruent(ia@, ib@);
        },
        (RegexUnit::ItemList(ia), RegexUnit::ItemList(ib)) => {
            lemma_items_id_count_congruent(ia@, ib@);
        },
        _ => {},
    }
}

pub proof fn lemma_units_id_count_congruent(sa: Seq<RegexUnit>, sb: Seq<RegexUnit>)
    requires
        units_model(sa) == units_model(sb),
    ensures
        units_id_count(sa) == units_id_count(sb),
    decreases sa,
{
    lemma_units_model_len(sa);
    lemma_units_model_len(sb);
    if sa.len() > 0 {
        lemma_units_model_drop_last(sa, sb);
        lemma_units_id_count_congruent(sa.drop_last(), sb.drop_last());
        lemma_unit_id_count_congruent(sa.last(), sb.last());
    }
}

pub proof fn lemma_items_id_count_congruent(sa: Seq<RegexItem>, sb: Seq<RegexItem>)
    requires
        items_model(sa) == items_model(sb),
    ensures
        items_id_count(sa) == items_id_count(sb),
    decreases sa,
{
    lemma_items_model_len(sa);
    lemma_items_model_len(sb);
    if sa.len() > 0 {
        lemma_items_model_drop_last(sa, sb);
        lemma_items_id_count_congruent(sa.drop_last(), sb.drop_last());
        lemma_unit_id_count_congruent(sa.last().unit, sb.last().unit);
        assert(item_id_count(sa.last()) == unit_id_count(sa.last().unit));
        assert(item_id_count(sb.last()) == unit_id_count(sb.last().unit));
    }
}

pub proof fn lemma_units_count_take_congruent(sa: Seq<RegexUnit>, sb: Seq<RegexUnit>, j: int)
    requires
        units_model(sa) == units_model(sb),
        0 <= j <= sa.len(),
    ensures
        sb.len() == sa.len(),
        units_id_count(sa.take(j)) == units_id_count(sb.take(j)),
    decreases j,
{
    lemma_units_model_len(sa);
    lemma_units_model_len(sb);
    if j > 0 {
        lemma_units_count_take_congruent(sa, sb, j - 1);
        lemma_units_id_count_take(sa, j - 1);
        lemma_units_id_count_take(sb, j - 1);
        lemma_units_model_at(sa, j - 1);
        lemma_units_model_at(sb, j - 1);
        lemma_unit_id_count_congruent(sa[j - 1], sb[j - 1]);
    }
}

pub proof fn lemma_items_count_take_congruent(sa: Seq<RegexItem>, sb: Seq<RegexItem>, j: int)
    requires
        items_model(sa) == items_model(sb),
        0 <= j <= sa.len(),
    ensures
        sb.len() == sa.len(),
        items_id_count(sa.take(j)) == items_id_count(sb.take(j)),
    decreases j,
{
    lemma_items_model_len(sa);
    lemma_items_model_len(sb);
    if j > 0 {
        lemma_items_count_take_congruent(sa, sb, j - 1);
        lemma_items_id_count_take(sa, j - 1);
        lemma_items_id_count_take(sb, j - 1);
        lemma_items_model_at(sa, j - 1);
        lemma_items_model_at(sb, j - 1);
        lemma_unit_id_count_congruent(sa[j - 1].unit, sb[j - 1].unit);
    }
}

pub proof fn lemma_class_atoms_congruent(sa: Seq<RegexUnit>, sb: Seq<RegexUnit>)
    requires
        units_model(sa) == units_model(sb),
    ensures
        class_atoms_model(sa) == class_atoms_model(sb),
    decreases sa,
{
    lemma_units_model_len(sa);
    lemma_units_model_len(sb);
    if sa.len() > 0 {
        lemma_units_model_drop_last(sa, sb);
        lemma_class_atoms_congruent(sa.drop_last(), sb.drop_last());
    }
}

/// Trees with one picture draw one fragment: the construction depends on
/// the tree only through its picture.
pub proof fn lemma_thompson_unit_congruent(a: RegexUnit, b: RegexUnit, base: int)
    requires
        unit_model(a) == unit_model(b),
    ensures
        unit_end_id(a, base) == unit_end_id(b, base),
        thompson_unit(a, base) == thompson_unit(b, base),
    decreases a,
{
    lemma_unit_id_count_congruent(a, b);
    match (a, b) {
        (RegexUnit::NotUnits(ua), RegexUnit::NotUnits(ub)) => {
            lemma_class_atoms_congruent(ua@, ub@);
        },
        (RegexUnit::UnitChoice(ua), RegexUnit::UnitChoice(ub)) => {
            lemma_choice_units_congruent(ua@, ub@, base, base + 1);
            assert(unit_choice_start_node(ua@, base) =~~= unit_choice_start_node(ub@, base))
                by {
                lemma_units_model_len(ua@);
                lemma_units_model_len(ub@);
                assert forall|j: int|
                    0 <= j < ua@.len() implies unit_choice_start_node(ua@, base).edges[j]
                        == unit_choice_start_node(ub@, base).edges[j] by {
                    lemma_units_count_take_congruent(ua@, ub@, j);
                }
            }
        },
        (RegexUnit::ItemChoice(ia), RegexUnit::ItemChoice(ib)) => {
            lemma_choice_items_congruent(ia@, ib@, base, base + 1);
            assert(item_choice_start_node(ia@, base) =~~= item_choice_start_node(ib@, base))
                by {
                lemma_items_model_len(ia@);
                lemma_items_model_len(ib@);
                assert forall|j: int|
                    0 <= j < ia@.len() implies item_choice_start_node(ia@, base).edges[j]
                        == item_choice_start_node(ib@, base).edges[j] by {
                    lemma_items_count_take_congruent(ia@, ib@, j);
                }
            }
        },
        (RegexUnit::ItemList(ia), RegexUnit::ItemList(ib)) => {
            lemma_list_items_congruent(ia@, ib@, base);
            lemma_list_end_congruent(ia@, ib@, base);
        },
        _ => {},
    }
}

pub proof fn lemma_choice_units_congruent(
    sa: Seq<RegexUnit>,
    sb: Seq<RegexUnit>,
    base: int,
    pend: int,
)
    requires
        units_model(sa) == units_model(sb),
    ensures
        choice_units(sa, base, pend) == choice_units(sb, base, pend),
    decreases sa,
{
    lemma_units_model_len(sa);
    lemma_units_model_len(sb);
    if sa.len() > 0 {
        lemma_units_model_drop_last(sa, sb);
        lemma_choice_units_congruent(sa.drop_last(), sb.drop_last(), base, pend);
        lemma_units_id_count_congruent(sa.drop_last(), sb.drop_last());
        lemma_thompson_unit_congruent(
            sa.last(),
            sb.last(),
            base + 2 + units_id_count(sa.drop_last()),
        );
    }
}

pub proof fn lemma_choice_items_congruent(
    sa: Seq<RegexItem>,
    sb: Seq<RegexItem>,
    base: int,
    pend: int,
)
    requires
        items_model(sa) == items_model(sb),
    ensures
        choice_items(sa, base, pend) == choice_items(sb, base, pend),
    decreases sa,
{
    lemma_items_model_len(sa);
    lemma_items_model_len(sb);
    if sa.len() > 0 {
        lemma_items_model_drop_last(sa, sb);
        lemma_choice_items_congruent(sa.drop_last(), sb.drop_last(), base, pend);
        lemma_items_id_count_congruent(sa.drop_last(), sb.drop_last());
        lemma_thompson_item_congruent(
            sa.last(),
            sb.last(),
            base + 2 + items_id_count(sa.drop_last()),
        );
    }
}

pub proof fn lemma_list_items_congruent(sa: Seq<RegexItem>, sb: Seq<RegexItem>, base: int)
    requires
        items_model(sa) == items_model(sb),
    ensures
        list_items(sa, base) == list_items(sb, base),
    decreases sa,
{
    lemma_items_model_len(sa);
    lemma_items_model_len(sb);
    if sa.len() > 0 {
        lemma_items_model_drop_last(sa, sb);
        lemma_list_items_congruent(sa.drop_last(), sb.drop_last(), base);
        lemma_items_id_count_congruent(sa.drop_last(), sb.drop_last());
        lemma_thompson_item_congruent(
            sa.last(),
            sb.last(),
            base + items_id_count(sa.drop_last()),
        );
        if sa.len() > 1 {
            lemma_list_end_congruent(sa.drop_last(), sb.drop_last(), base);
        }
    }
}

pub proof fn lemma_list_end_congruent(sa: Seq<RegexItem>, sb: Seq<RegexItem>, base: int)
    requires
        items_model(sa) == items_model(sb),
    ensures
        list_end_id(sa, base) == list_end_id(sb, base),
    decreases sa,
{
    lemma_items_model_len(sa);
    lemma_items_model_len(sb);
    if sa.len() > 0 {
        lemma_items_model_drop_last(sa, sb);
        lemma_items_id_count_congruent(sa.drop_last(), sb.drop_last());
        lemma_thompson_item_congruent(
            sa.last(),
            sb.last(),
            base + items_id_count(sa.drop_last()),
        );
    }
}

pub proof fn lemma_thompson_item_congruent(a: RegexItem, b: RegexItem, base: int)
    requires
        item_model(a) == item_model(b),
    ensures
        item_end_id(a, base) == item_end_id(b, base),
        thompson_item(a, base) == thompson_item(b, base),
    decreases a,
{
    lemma_thompson_unit_congruent(a.unit, b.unit, base);
    lemma_unit_id_count_congruent(a.unit, b.unit);
}

} // verus!
