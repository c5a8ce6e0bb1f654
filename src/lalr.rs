//! Why fusing states with one LR(0) kernel adds only reduce-reduce
//! conflicts: states with one kernel have successors with one kernel, and
//! the same terminals to shift.

use vstd::prelude::*;
use crate::dfa::{DetermenisticLR1Automaton, any_set, eps_closed, goto_has, goto_set, is_closure};
use crate::first::le;
use crate::grammar::{ActionV, GeneratorError, TagV};
use crate::indexed::Sym;
use crate::nfa::{Label, LR1Item, NonDeterministicLR1Automaton, in_first_of_rest, item_ok, lookahead_at, nfa_step};
use crate::tables::{action_req, conflict_between, conflict_of, has_conflict, kernel_has, reduce_req, same_kernel, shift_req, tag_of, valid_ids};

verus! {

/// Set `t` holds an item with the rule and dot of item `k`.
pub open spec fn has_twin(nfa: &NonDeterministicLR1Automaton, t: Seq<bool>, k: int) -> bool {
    exists|j: int| 0 <= j < t.len() && t[j] && #[trigger] nfa.items@[j].rule == nfa.items@[k].rule && nfa.items@[j].position == nfa.items@[k].position
}

/// Every item of `s` has a twin in `t`.
pub open spec fn twins_in(nfa: &NonDeterministicLR1Automaton, s: Seq<bool>, t: Seq<bool>) -> bool {
    forall|k: int| 0 <= k < s.len() && s[k] ==> #[trigger] has_twin(nfa, t, k)
}

#[verifier::rlimit(40)]
proof fn lemma_goto_twins(nfa: &NonDeterministicLR1Automaton, s1: Seq<bool>, s2: Seq<bool>, x: Sym)
    requires
        nfa.wf(),
        s1.len() == nfa.items@.len(),
        s2.len() == nfa.items@.len(),
        twins_in(nfa, s1, s2),
    ensures
        twins_in(nfa, goto_set(nfa, s1, x), goto_set(nfa, s2, x)),
{
    reveal(NonDeterministicLR1Automaton::edges_complete);
    let g1 = goto_set(nfa, s1, x);
    let g2 = goto_set(nfa, s2, x);
    assert forall|k: int| 0 <= k < g1.len() && g1[k] implies #[trigger] has_twin(nfa, g2, k) by {
        assert(goto_has(nfa, s1, x, k));
        let (i, e) = choose|i: int, e: int| 0 <= i < s1.len() && 0 <= e < nfa.edges@[i]@.len() && s1[i] && #[trigger] nfa.edges@[i]@[e] == (k as usize, Label::Sym(x));
        let ed = nfa.edges@[i]@[e];
        assert(ed.0 < nfa.items@.len() && nfa_step(&nfa.grammar, &nfa.sets, nfa.items@[i], ed.1, nfa.items@[ed.0 as int]));
        assert(nfa.items@.len() == nfa.items.len());
        assert(ed.0 as int == k);
        assert(ed.1 == Label::Sym(x));
        assert(nfa.items@[k].rule == nfa.items@[i].rule && nfa.items@[k].position == (nfa.items@[i].position + 1) as usize);
        assert(has_twin(nfa, s2, i));
        let j = choose|j: int| 0 <= j < s2.len() && s2[j] && #[trigger] nfa.items@[j].rule == nfa.items@[i].rule && nfa.items@[j].position == nfa.items@[i].position;
        let it = nfa.items@[j];
        let next = LR1Item { rule: it.rule, position: (it.position + 1) as usize, lookup: it.lookup };
        assert(nfa_step(&nfa.grammar, &nfa.sets, it, Label::Sym(x), next));
        let f = choose|f: int| 0 <= f < nfa.edges@[j]@.len() && #[trigger] nfa.edges@[j]@[f] == (nfa.edges@[j]@[f].0, Label::Sym(x)) && nfa.items@[nfa.edges@[j]@[f].0 as int] == next;
        let k2 = nfa.edges@[j]@[f].0 as int;
        assert(nfa.edges@[j]@[f].0 < nfa.items@.len());
        assert(goto_has(nfa, s2, x, k2));
        assert(g2[k2]);
        assert(nfa.items@[k2].rule == nfa.items@[k].rule && nfa.items@[k2].position == nfa.items@[k].position);
    }
}

proof fn lemma_lookahead_exists(nullable: Seq<bool>, first: Seq<Seq<bool>>, beta: Seq<Sym>, la1: int, b: int, la2: int)
    requires
        in_first_of_rest(nullable, first, beta, la1, b),
    ensures
        in_first_of_rest(nullable, first, beta, la2, b) || in_first_of_rest(nullable, first, beta, la2, la2),
{
    let j = choose|j: int| #[trigger] lookahead_at(nullable, first, beta, la1, b, j);
    if j < beta.len() {
        assert(lookahead_at(nullable, first, beta, la2, b, j));
    } else {
        assert(lookahead_at(nullable, first, beta, la2, la2, j));
    }
}

#[verifier::rlimit(40)]
proof fn lemma_closure_twins(nfa: &NonDeterministicLR1Automaton, t1: Seq<bool>, c1: Seq<bool>, t2: Seq<bool>, c2: Seq<bool>)
    requires
        nfa.wf(),
        t1.len() == nfa.items@.len(),
        is_closure(nfa, t1, c1),
        is_closure(nfa, t2, c2),
        twins_in(nfa, t1, c2),
    ensures
        twins_in(nfa, c1, c2),
{
    reveal(NonDeterministicLR1Automaton::edges_complete);
    let n = nfa.items@.len();
    let u = Seq::new(n, |k: int| has_twin(nfa, c2, k));
    assert(eps_closed(nfa, u)) by {
        assert forall|i: int, e: int| 0 <= i < u.len() && 0 <= e < nfa.edges@[i]@.len() && u[i] && (#[trigger] nfa.edges@[i]@[e]).1 == Label::Empty
            implies u[nfa.edges@[i]@[e].0 as int] by {
            let ed = nfa.edges@[i]@[e];
            let k = ed.0 as int;
            assert(ed.0 < n && nfa_step(&nfa.grammar, &nfa.sets, nfa.items@[i], ed.1, nfa.items@[k]));
            assert(has_twin(nfa, c2, i));
            let j = choose|j: int| 0 <= j < c2.len() && c2[j] && #[trigger] nfa.items@[j].rule == nfa.items@[i].rule && nfa.items@[j].position == nfa.items@[i].position;
            let it = nfa.items@[i];
            let jt = nfa.items@[j];
            let g = &nfa.grammar;
            let rhs = g.rhs(it.rule as int);
            let beta = rhs.subrange(it.position + 1, rhs.len() as int);
            let kt = nfa.items@[k];
            assert(item_ok(g, jt));
            lemma_lookahead_exists(nfa.sets.nullable@, nfa.sets.first_view(), beta, it.lookup as int, kt.lookup as int, jt.lookup as int);
            let b2: usize = if in_first_of_rest(nfa.sets.nullable@, nfa.sets.first_view(), beta, jt.lookup as int, kt.lookup as int) {
                kt.lookup
            } else {
                jt.lookup
            };
            let target = LR1Item { rule: kt.rule, position: 0, lookup: b2 };
            assert(nfa_step(g, &nfa.sets, jt, Label::Empty, target));
            let f = choose|f: int| 0 <= f < nfa.edges@[j]@.len() && #[trigger] nfa.edges@[j]@[f] == (nfa.edges@[j]@[f].0, Label::Empty) && nfa.items@[nfa.edges@[j]@[f].0 as int] == target;
            let k2 = nfa.edges@[j]@[f].0 as int;
            assert(nfa.edges@[j]@[f].0 < n);
            assert(c2[k2]);
            assert(nfa.items@[k2].rule == nfa.items@[k].rule && nfa.items@[k2].position == nfa.items@[k].position);
            assert(has_twin(nfa, c2, k));
        }
    }
    assert(le(t1, u)) by {
        assert forall|k: int| 0 <= k < t1.len() && #[trigger] t1[k] implies u[k] by {
            assert(has_twin(nfa, c2, k));
        }
    }
    assert(le(c1, u));
    assert forall|k: int| 0 <= k < c1.len() && c1[k] implies #[trigger] has_twin(nfa, c2, k) by {
        assert(u[k]);
    }
}

proof fn lemma_kernel_twins(dfa: &DetermenisticLR1Automaton, nfa: &NonDeterministicLR1Automaton, q1: int, q2: int)
    requires
        dfa.wf(),
        dfa.built_from(nfa),
        0 <= q1 < dfa.states@.len(),
        0 <= q2 < dfa.states@.len(),
        same_kernel(dfa, q1, q2),
    ensures
        twins_in(nfa, dfa.state(q1), dfa.state(q2)),
{
    assert forall|k: int| 0 <= k < dfa.state(q1).len() && dfa.state(q1)[k] implies #[trigger] has_twin(nfa, dfa.state(q2), k) by {
        let it = dfa.items@[k];
        assert(kernel_has(dfa, q1, it.rule, it.position));
        assert(kernel_has(dfa, q2, it.rule, it.position));
        let j = choose|j: int| 0 <= j < dfa.items@.len() && dfa.state(q2)[j] && #[trigger] dfa.items@[j].rule == it.rule && dfa.items@[j].position == it.position;
        assert(nfa.items@[j].rule == nfa.items@[k].rule);
    }
}

proof fn lemma_twins_kernel(dfa: &DetermenisticLR1Automaton, nfa: &NonDeterministicLR1Automaton, q1: int, q2: int)
    requires
        dfa.wf(),
        dfa.built_from(nfa),
        0 <= q1 < dfa.states@.len(),
        0 <= q2 < dfa.states@.len(),
        twins_in(nfa, dfa.state(q1), dfa.state(q2)),
        twins_in(nfa, dfa.state(q2), dfa.state(q1)),
    ensures
        same_kernel(dfa, q1, q2),
{
    assert forall|r: usize, p: usize| #[trigger] kernel_has(dfa, q1, r, p) == kernel_has(dfa, q2, r, p) by {
        if kernel_has(dfa, q1, r, p) {
            let i = choose|i: int| 0 <= i < dfa.items@.len() && dfa.state(q1)[i] && #[trigger] dfa.items@[i].rule == r && dfa.items@[i].position == p;
            assert(has_twin(nfa, dfa.state(q2), i));
            let j = choose|j: int| 0 <= j < dfa.state(q2).len() && dfa.state(q2)[j] && #[trigger] nfa.items@[j].rule == nfa.items@[i].rule && nfa.items@[j].position == nfa.items@[i].position;
            assert(dfa.items@[j].rule == r);
        }
        if kernel_has(dfa, q2, r, p) {
            let i = choose|i: int| 0 <= i < dfa.items@.len() && dfa.state(q2)[i] && #[trigger] dfa.items@[i].rule == r && dfa.items@[i].position == p;
            assert(has_twin(nfa, dfa.state(q1), i));
            let j = choose|j: int| 0 <= j < dfa.state(q1).len() && dfa.state(q1)[j] && #[trigger] nfa.items@[j].rule == nfa.items@[i].rule && nfa.items@[j].position == nfa.items@[i].position;
            assert(dfa.items@[j].rule == r);
        }
    }
}

proof fn lemma_successor_twins(dfa: &DetermenisticLR1Automaton, nfa: &NonDeterministicLR1Automaton, q1: int, e1: int, q2: int, e2: int)
    requires
        dfa.wf(),
        nfa.wf(),
        dfa.built_from(nfa),
        0 <= q1 < dfa.states@.len(),
        0 <= q2 < dfa.states@.len(),
        0 <= e1 < dfa.edges@[q1]@.len(),
        0 <= e2 < dfa.edges@[q2]@.len(),
        dfa.edges@[q1]@[e1].0 == dfa.edges@[q2]@[e2].0,
        twins_in(nfa, dfa.state(q1), dfa.state(q2)),
    ensures
        twins_in(nfa, dfa.state(dfa.edges@[q1]@[e1].1 as int), dfa.state(dfa.edges@[q2]@[e2].1 as int)),
{
    let x = dfa.edges@[q1]@[e1].0;
    let t1 = dfa.edges@[q1]@[e1].1 as int;
    let t2 = dfa.edges@[q2]@[e2].1 as int;
    let g1 = goto_set(nfa, dfa.state(q1), x);
    let g2 = goto_set(nfa, dfa.state(q2), x);
    assert(dfa.edges@[q1]@[e1] == (x, t1 as usize));
    assert(is_closure(nfa, g1, dfa.state(t1)));
    assert(is_closure(nfa, g2, dfa.state(t2)));
    lemma_goto_twins(nfa, dfa.state(q1), dfa.state(q2), x);
    assert(twins_in(nfa, g1, dfa.state(t2))) by {
        assert forall|k: int| 0 <= k < g1.len() && g1[k] implies #[trigger] has_twin(nfa, dfa.state(t2), k) by {
            assert(has_twin(nfa, g2, k));
            let j = choose|j: int| 0 <= j < g2.len() && g2[j] && #[trigger] nfa.items@[j].rule == nfa.items@[k].rule && nfa.items@[j].position == nfa.items@[k].position;
            assert(le(g2, dfa.state(t2)));
            assert(dfa.state(t2)[j]);
        }
    }
    lemma_closure_twins(nfa, g1, dfa.state(t1), g2, dfa.state(t2));
}

/// States with one kernel have, on one symbol, successors with one kernel.
pub proof fn lemma_successor_kernels(dfa: &DetermenisticLR1Automaton, nfa: &NonDeterministicLR1Automaton, q1: int, e1: int, q2: int, e2: int)
    requires
        dfa.wf(),
        nfa.wf(),
        dfa.built_from(nfa),
        0 <= q1 < dfa.states@.len(),
        0 <= q2 < dfa.states@.len(),
        0 <= e1 < dfa.edges@[q1]@.len(),
        0 <= e2 < dfa.edges@[q2]@.len(),
        dfa.edges@[q1]@[e1].0 == dfa.edges@[q2]@[e2].0,
        same_kernel(dfa, q1, q2),
    ensures
        same_kernel(dfa, dfa.edges@[q1]@[e1].1 as int, dfa.edges@[q2]@[e2].1 as int),
{
    crate::tables::lemma_same_kernel_symmetric(dfa, q1, q2);
    lemma_kernel_twins(dfa, nfa, q1, q2);
    lemma_kernel_twins(dfa, nfa, q2, q1);
    lemma_successor_twins(dfa, nfa, q1, e1, q2, e2);
    lemma_successor_twins(dfa, nfa, q2, e2, q1, e1);
    lemma_twins_kernel(dfa, nfa, dfa.edges@[q1]@[e1].1 as int, dfa.edges@[q2]@[e2].1 as int);
}

/// Two shifts asked for one entry under a numbering by kernels are equal.
#[verifier::rlimit(50)]
proof fn lemma_shifts_agree(
    dfa: &DetermenisticLR1Automaton,
    nfa: &NonDeterministicLR1Automaton,
    lalr: Seq<usize>,
    key: (int, TagV),
    a1: ActionV,
    a2: ActionV,
    q1: int,
    e1: int,
    q2: int,
    e2: int,
)
    requires
        dfa.wf(),
        nfa.wf(),
        dfa.built_from(nfa),
        valid_ids(dfa, true, lalr),
        shift_req(dfa, lalr, q1, e1, key, a1),
        shift_req(dfa, lalr, q2, e2, key, a2),
    ensures
        a1 == a2,
{
    let g = &dfa.grammar;
    let (x1, t1) = dfa.edges@[q1]@[e1];
    let (x2, t2) = dfa.edges@[q2]@[e2];
    assert(g.sym_ok(x1));
    assert(g.sym_ok(x2));
    assert(lalr[q1] == lalr[q2]);
    assert(same_kernel(dfa, q1, q2));
    assert(g.terms@[x1->T_0 as int]@ == g.terms@[x2->T_0 as int]@);
    assert(x1 == x2);
    lemma_successor_kernels(dfa, nfa, q1, e1, q2, e2);
    assert(lalr[t1 as int] == lalr[t2 as int]);
}

/// A shift and a reduce asked for one entry under a numbering by kernels
/// make a conflict of the LR(1) numbering.
#[verifier::rlimit(50)]
proof fn lemma_shift_reduce_from_lr1(
    dfa: &DetermenisticLR1Automaton,
    nfa: &NonDeterministicLR1Automaton,
    lr1: Seq<usize>,
    lalr: Seq<usize>,
    key: (int, TagV),
    a1: ActionV,
    a2: ActionV,
    q1: int,
    e1: int,
    q2: int,
    i: int,
)
    requires
        dfa.wf(),
        nfa.wf(),
        dfa.built_from(nfa),
        valid_ids(dfa, false, lr1),
        valid_ids(dfa, true, lalr),
        shift_req(dfa, lalr, q1, e1, key, a1),
        reduce_req(dfa, lalr, q2, i, key, a2),
    ensures
        has_conflict(dfa, lr1),
{
    let g = &dfa.grammar;
    let (x1, t1) = dfa.edges@[q1]@[e1];
    assert(g.sym_ok(x1));
    let it = dfa.items@[i];
    assert(crate::nfa::item_ok(g, it));
    assert(!(g.rule_view(it.rule as int).left == crate::grammar::root_name())) by {
        if g.rule_view(it.rule as int).left == crate::grammar::root_name() {
            assert(key.1 is End);
        }
    }
    assert(key.1 == tag_of(g, it.lookup));
    assert(it.lookup < g.nt());
    assert(g.terms@[it.lookup as int]@ == g.terms@[x1->T_0 as int]@);
    assert(it.lookup == x1->T_0);
    assert(lalr[q1] == lalr[q2]);
    assert(same_kernel(dfa, q1, q2));
    lemma_kernel_twins(dfa, nfa, q1, q2);
    lemma_goto_twins(nfa, dfa.state(q1), dfa.state(q2), x1);
    let g1 = goto_set(nfa, dfa.state(q1), x1);
    let g2 = goto_set(nfa, dfa.state(q2), x1);
    assert(any_set(g1));
    let k = choose|k: int| 0 <= k < g1.len() && g1[k];
    assert(has_twin(nfa, g2, k));
    let k2 = choose|j: int| 0 <= j < g2.len() && g2[j] && #[trigger] nfa.items@[j].rule == nfa.items@[k].rule && nfa.items@[j].position == nfa.items@[k].position;
    assert(any_set(g2));
    let f = choose|f: int| 0 <= f < dfa.edges@[q2]@.len() && (#[trigger] dfa.edges@[q2]@[f]).0 == x1;
    let tf = dfa.edges@[q2]@[f].1;
    let k1 = (lr1[q2] as int, TagV::T(g.terms@[x1->T_0 as int]@));
    let sa = ActionV::Shift(lr1[tf as int] as int);
    let ra = ActionV::Reduce(g.rule_view(it.rule as int));
    assert(shift_req(dfa, lr1, q2, f, k1, sa));
    assert(reduce_req(dfa, lr1, q2, i, k1, ra));
    assert(action_req(dfa, lr1, k1, sa) && action_req(dfa, lr1, k1, ra) && sa != ra);
}

/// Under a numbering by kernels, a shift meets no other action in one
/// entry unless the LR(1) numbering already has a conflict.
proof fn lemma_shift_agrees(
    dfa: &DetermenisticLR1Automaton,
    nfa: &NonDeterministicLR1Automaton,
    lr1: Seq<usize>,
    lalr: Seq<usize>,
    key: (int, TagV),
    a1: ActionV,
    a2: ActionV,
)
    requires
        dfa.wf(),
        nfa.wf(),
        dfa.built_from(nfa),
        valid_ids(dfa, false, lr1),
        valid_ids(dfa, true, lalr),
        !has_conflict(dfa, lr1),
        action_req(dfa, lalr, key, a1),
        action_req(dfa, lalr, key, a2),
        a1 is Shift,
    ensures
        a1 == a2,
{
    assert(exists|q: int, e: int| #[trigger] shift_req(dfa, lalr, q, e, key, a1)) by {
        if !exists|q: int, e: int| #[trigger] shift_req(dfa, lalr, q, e, key, a1) {
            let (q, i) = choose|q: int, i: int| #[trigger] reduce_req(dfa, lalr, q, i, key, a1);
        }
    }
    let (q1, e1) = choose|q: int, e: int| #[trigger] shift_req(dfa, lalr, q, e, key, a1);
    if exists|q: int, e: int| #[trigger] shift_req(dfa, lalr, q, e, key, a2) {
        let (q2, e2) = choose|q: int, e: int| #[trigger] shift_req(dfa, lalr, q, e, key, a2);
        lemma_shifts_agree(dfa, nfa, lalr, key, a1, a2, q1, e1, q2, e2);
    } else {
        let (q2, i) = choose|q: int, i: int| #[trigger] reduce_req(dfa, lalr, q, i, key, a2);
        lemma_shift_reduce_from_lr1(dfa, nfa, lr1, lalr, key, a1, a2, q1, e1, q2, i);
    }
}

/// Fusing states by kernel adds only reduce-reduce conflicts: when the
/// LR(1) numbering asks for one action per entry, every conflict of an
/// LALR numbering is between two actions neither of which is a shift, so
/// the LALR projection can fail only with a reduce-reduce conflict.
pub proof fn lemma_lalr_conflicts_are_reduce_reduce(
    dfa: &DetermenisticLR1Automaton,
    nfa: &NonDeterministicLR1Automaton,
    lr1: Seq<usize>,
    lalr: Seq<usize>,
    e: GeneratorError,
)
    requires
        dfa.wf(),
        nfa.wf(),
        dfa.built_from(nfa),
        valid_ids(dfa, false, lr1),
        valid_ids(dfa, true, lalr),
        !has_conflict(dfa, lr1),
        conflict_between(dfa, lalr, e),
    ensures
        e is ReduceReduceConflict,
{
    let (key, a1, a2) = choose|key: (int, TagV), a1: ActionV, a2: ActionV|
        #[trigger] action_req(dfa, lalr, key, a1) && #[trigger] action_req(dfa, lalr, key, a2) && a1 != a2 && e == conflict_of(a1, a2);
    if a1 is Shift {
        lemma_shift_agrees(dfa, nfa, lr1, lalr, key, a1, a2);
    }
    if a2 is Shift {
        lemma_shift_agrees(dfa, nfa, lr1, lalr, key, a2, a1);
    }
}

} // verus!
