//! Projection of the item-set automaton to ACTION and GOTO tables, with
//! conflict detection and LALR fusion of states.

use vstd::prelude::*;
use crate::dfa::DetermenisticLR1Automaton;
use crate::nfa::NonDeterministicLR1Automaton;
use crate::driver::accepts_only_at_end;
use crate::grammar::{
    ActionV, GeneratorError, LR1Action, Nonterminal, ParseTables, TagV, Terminal,
    TerminalOrFinish, copy_string, keys_unique, lookup_action, root_name,
};
use crate::indexed::{IndexedGrammar, Sym};

verus! {

/// How states are numbered: one number per automaton state (canonical
/// LR(1)), or one per LR(0) kernel (LALR(1)).
pub enum ParseTablesType {
    LR1,
    LALR,
}

/// Two different actions for one entry: a shift-reduce conflict when one
/// of them is a shift, else a reduce-reduce conflict.
pub open spec fn conflict_of(a: ActionV, b: ActionV) -> GeneratorError {
    if a is Shift || b is Shift {
        GeneratorError::ShiftReduceConflict
    } else {
        GeneratorError::ReduceReduceConflict
    }
}

/// Writes `action` at `(state, term)` unless another action is there.
pub fn try_add_action(tables: &mut ParseTables, state: i32, term: TerminalOrFinish, action: LR1Action) -> (r: Result<(), GeneratorError>)
    requires
        keys_unique(old(tables)@.action),
    ensures
        keys_unique(final(tables)@.action),
        final(tables).start == old(tables).start,
        final(tables)@.goto == old(tables)@.goto,
        match lookup_action(old(tables)@.action, state as int, term@) {
            None => r is Ok && final(tables)@.action == old(tables)@.action.push(((state as int, term@), action@)),
            Some(a) => if a == action@ {
                r is Ok && final(tables)@.action == old(tables)@.action
            } else {
                r is Err && r->Err_0 == conflict_of(action@, a) && final(tables)@.action == old(tables)@.action
            },
        },
{
    match tables.find_action(state, &term) {
        Some(other) => {
            if other.same(&action) {
                Ok(())
            } else {
                let shift = match (&action, other) {
                    (LR1Action::Shift(_), _) => true,
                    (_, LR1Action::Shift(_)) => true,
                    _ => false,
                };
                if shift {
                    Err(GeneratorError::ShiftReduceConflict)
                } else {
                    Err(GeneratorError::ReduceReduceConflict)
                }
            }
        },
        None => {
            let ghost before = tables@.action;
            proof {
                lemma_lookup_none_absent(before, state as int, term@);
            }
            tables.action.push(((state, term), action));
            assert(tables@.action =~= before.push(((state as int, term@), action@)));
            Ok(())
        },
    }
}

proof fn lemma_lookup_none_absent(s: Seq<((int, TagV), ActionV)>, q: int, t: TagV)
    requires
        lookup_action(s, q, t) is None,
    ensures
        forall|i: int| 0 <= i < s.len() ==> s[i].0 != (q, t),
    decreases s.len(),
{
    if s.len() > 0 {
        lemma_lookup_none_absent(s.drop_first(), q, t);
        assert forall|i: int| 0 <= i < s.len() implies s[i].0 != (q, t) by {
            if i > 0 {
                assert(s[i] == s.drop_first()[i - 1]);
            }
        }
    }
}

fn goto_index(tables: &ParseTables, state: i32, nterm: &Nonterminal) -> (r: Option<usize>)
    ensures
        match r {
            Some(i) => i < tables@.goto.len() && tables@.goto[i as int].0 == (state as int, nterm@),
            None => forall|j: int| 0 <= j < tables@.goto.len() ==> tables@.goto[j].0 != (state as int, nterm@),
        },
{
    let mut i: usize = 0;
    while i < tables.goto.len()
        invariant
            i <= tables.goto@.len(),
            forall|j: int| 0 <= j < i ==> tables@.goto[j].0 != (state as int, nterm@),
        decreases tables.goto.len() - i,
    {
        if tables.goto[i].0.0 == state && tables.goto[i].0.1.same(nterm) {
            return Some(i);
        }
        i += 1;
    }
    None
}

/// Writes `target` at `(state, nterm)`, replacing what was there.
pub fn set_goto(tables: &mut ParseTables, state: i32, nterm: Nonterminal, target: i32)
    requires
        keys_unique(old(tables)@.goto),
    ensures
        keys_unique(final(tables)@.goto),
        final(tables)@.action == old(tables)@.action,
        final(tables).start == old(tables).start,
        exists|i: int| 0 <= i < final(tables)@.goto.len() && final(tables)@.goto[i] == ((state as int, nterm@), target as int),
        forall|i: int| 0 <= i < final(tables)@.goto.len() ==> (#[trigger] final(tables)@.goto[i] == ((state as int, nterm@), target as int)
            || exists|j: int| 0 <= j < old(tables)@.goto.len() && old(tables)@.goto[j] == final(tables)@.goto[i]),
        forall|j: int| 0 <= j < old(tables)@.goto.len() && old(tables)@.goto[j].0 != (state as int, nterm@)
            ==> exists|i: int| 0 <= i < final(tables)@.goto.len() && #[trigger] final(tables)@.goto[i] == old(tables)@.goto[j],
{
    let ghost before = tables@.goto;
    if let Some(i) = goto_index(tables, state, &nterm) {
        let ghost old_entry = before[i as int];
        assert(old_entry.0 == (state as int, nterm@));
        tables.goto.set(i, ((state, nterm), target));
        proof {
            let after = tables@.goto;
            assert(after == before.update(i as int, ((state as int, nterm@), target as int)));
            assert(after[i as int] == ((state as int, nterm@), target as int));
            assert forall|a: int, b: int| 0 <= a < b < after.len() implies after[a].0 != after[b].0 by {
                assert(after[a].0 == before[a].0 && after[b].0 == before[b].0);
            }
            assert forall|x: int| 0 <= x < after.len() implies (#[trigger] after[x] == ((state as int, nterm@), target as int)
                || exists|j: int| 0 <= j < before.len() && before[j] == after[x]) by {
                if x != i {
                    assert(before[x] == after[x]);
                }
            }
            assert forall|j: int| 0 <= j < before.len() && before[j].0 != (state as int, nterm@)
                implies exists|x: int| 0 <= x < after.len() && #[trigger] after[x] == before[j] by {
                assert(after[j] == before[j]);
            }
        }
        return;
    }
    tables.goto.push(((state, nterm), target));
    proof {
        let after = tables@.goto;
        assert(after =~= before.push(((state as int, nterm@), target as int)));
        assert(after[before.len() as int] == ((state as int, nterm@), target as int));
        assert forall|x: int| 0 <= x < after.len() implies (#[trigger] after[x] == ((state as int, nterm@), target as int)
            || exists|j: int| 0 <= j < before.len() && before[j] == after[x]) by {
            if x < before.len() {
                assert(before[x] == after[x]);
            }
        }
        assert forall|j: int| 0 <= j < before.len() && before[j].0 != (state as int, nterm@)
            implies exists|x: int| 0 <= x < after.len() && #[trigger] after[x] == before[j] by {
            assert(after[j] == before[j]);
        }
    }
}

/// State `q` holds an item of rule `r` with the dot at `p`.
pub open spec fn kernel_has(dfa: &DetermenisticLR1Automaton, q: int, r: usize, p: usize) -> bool {
    exists|i: int| 0 <= i < dfa.items@.len() && dfa.state(q)[i] && #[trigger] dfa.items@[i].rule == r && dfa.items@[i].position == p
}

/// States `q1` and `q2` have the same LR(0) kernel: the same items once
/// lookaheads are erased.
pub open spec fn same_kernel(dfa: &DetermenisticLR1Automaton, q1: int, q2: int) -> bool {
    forall|r: usize, p: usize| #[trigger] kernel_has(dfa, q1, r, p) == kernel_has(dfa, q2, r, p)
}

/// State numbers: one per automaton state for LR(1); for LALR, equal
/// exactly for states with the same LR(0) kernel.
pub open spec fn valid_ids(dfa: &DetermenisticLR1Automaton, lalr: bool, ids: Seq<usize>) -> bool {
    &&& ids.len() == dfa.states@.len()
    &&& forall|q: int| 0 <= q < ids.len() ==> #[trigger] ids[q] < ids.len()
    &&& !lalr ==> forall|q: int| 0 <= q < ids.len() ==> #[trigger] ids[q] == q
    &&& lalr ==> forall|q1: int, q2: int| 0 <= q1 < ids.len() && 0 <= q2 < ids.len() ==> (#[trigger] ids[q1] == #[trigger] ids[q2] <==> same_kernel(dfa, q1, q2))
    &&& forall|q: int| 0 <= q < ids.len() && #[trigger] ids[q] > 0 ==> attained(ids, ids[q] - 1, q)
}

/// Number `v` is given to a state before state `q`; so numbers are
/// dense from 0 and first given in the order of the states.
pub open spec fn attained(ids: Seq<usize>, v: int, q: int) -> bool {
    exists|p: int| 0 <= p < q && #[trigger] ids[p] == v
}

/// Every item of state `q1` with the lookahead erased is one of state `q2`.
fn kernel_within(dfa: &DetermenisticLR1Automaton, q1: usize, q2: usize) -> (r: bool)
    requires
        dfa.wf(),
        q1 < dfa.states@.len(),
        q2 < dfa.states@.len(),
    ensures
        r == forall|rr: usize, p: usize| #[trigger] kernel_has(dfa, q1 as int, rr, p) ==> kernel_has(dfa, q2 as int, rr, p),
{
    let n = dfa.items.len();
    let mut i: usize = 0;
    while i < n
        invariant
            dfa.wf(),
            n == dfa.items@.len(),
            q1 < dfa.states@.len(),
            q2 < dfa.states@.len(),
            i <= n,
            forall|a: int| 0 <= a < i && dfa.state(q1 as int)[a] ==> kernel_has(dfa, q2 as int, dfa.items@[a].rule, dfa.items@[a].position),
        decreases n - i,
    {
        if dfa.states[q1][i] {
            let it = dfa.items[i];
            let mut found = false;
            let mut j: usize = 0;
            while j < n
                invariant
                    dfa.wf(),
                    n == dfa.items@.len(),
                    q2 < dfa.states@.len(),
                    j <= n,
                    found ==> kernel_has(dfa, q2 as int, it.rule, it.position),
                    !found ==> forall|b: int| 0 <= b < j && dfa.state(q2 as int)[b] ==> !(dfa.items@[b].rule == it.rule && dfa.items@[b].position == it.position),
                decreases n - j,
            {
                if dfa.states[q2][j] && dfa.items[j].rule == it.rule && dfa.items[j].position == it.position {
                    found = true;
                }
                j += 1;
            }
            if !found {
                assert(kernel_has(dfa, q1 as int, it.rule, it.position));
                assert(!kernel_has(dfa, q2 as int, it.rule, it.position));
                return false;
            }
        }
        i += 1;
    }
    assert forall|rr: usize, p: usize| #[trigger] kernel_has(dfa, q1 as int, rr, p) implies kernel_has(dfa, q2 as int, rr, p) by {
        let a = choose|a: int| 0 <= a < dfa.items@.len() && dfa.state(q1 as int)[a] && #[trigger] dfa.items@[a].rule == rr && dfa.items@[a].position == p;
    }
    true
}

fn same_kernel_exec(dfa: &DetermenisticLR1Automaton, q1: usize, q2: usize) -> (r: bool)
    requires
        dfa.wf(),
        q1 < dfa.states@.len(),
        q2 < dfa.states@.len(),
    ensures
        r == same_kernel(dfa, q1 as int, q2 as int),
{
    let a = kernel_within(dfa, q1, q2);
    let b = kernel_within(dfa, q2, q1);
    if a && b {
        assert forall|rr: usize, p: usize| #[trigger] kernel_has(dfa, q1 as int, rr, p) == kernel_has(dfa, q2 as int, rr, p) by {
            if kernel_has(dfa, q1 as int, rr, p) {
            }
            if kernel_has(dfa, q2 as int, rr, p) {
            }
        }
        true
    } else {
        proof {
            if !a {
                let (rr, p) = choose|rr: usize, p: usize| !(#[trigger] kernel_has(dfa, q1 as int, rr, p) ==> kernel_has(dfa, q2 as int, rr, p));
                assert(kernel_has(dfa, q1 as int, rr, p) != kernel_has(dfa, q2 as int, rr, p));
            } else {
                let (rr, p) = choose|rr: usize, p: usize| !(#[trigger] kernel_has(dfa, q2 as int, rr, p) ==> kernel_has(dfa, q1 as int, rr, p));
                assert(kernel_has(dfa, q1 as int, rr, p) != kernel_has(dfa, q2 as int, rr, p));
            }
        }
        false
    }
}

/// Numbers the states of `dfa`; LALR numbering gives states with one
/// kernel one number, in order of first appearance.
pub fn state_ids(dfa: &DetermenisticLR1Automaton, lalr: bool) -> (r: Vec<usize>)
    requires
        dfa.wf(),
    ensures
        valid_ids(dfa, lalr, r@),
{
    let s = dfa.states.len();
    let mut ids: Vec<usize> = Vec::new();
    let mut next: usize = 0;
    let mut q: usize = 0;
    while q < s
        invariant
            dfa.wf(),
            s == dfa.states@.len(),
            q <= s,
            ids@.len() == q,
            next <= q,
            forall|a: int| 0 <= a < q ==> #[trigger] ids@[a] < next,
            !lalr ==> forall|a: int| 0 <= a < q ==> #[trigger] ids@[a] == a,
            lalr ==> forall|a: int, b: int| 0 <= a < q && 0 <= b < q ==> (#[trigger] ids@[a] == #[trigger] ids@[b] <==> same_kernel(dfa, a, b)),
            !lalr ==> next == q,
            forall|v: int| 0 <= v < next ==> #[trigger] attained(ids@, v, q as int),
            forall|a: int| 0 <= a < q && #[trigger] ids@[a] > 0 ==> attained(ids@, ids@[a] - 1, a),
        decreases s - q,
    {
        let ghost ids0 = ids@;
        if !lalr {
            ids.push(q);
            proof {
                lemma_attained_grow(ids0, ids@, q as int);
                assert forall|a: int| 0 <= a < q + 1 && #[trigger] ids@[a] > 0 implies attained(ids@, ids@[a] - 1, a) by {
                    assert(ids@[a] == a);
                    assert(ids@[a - 1] == a - 1);
                }
                assert forall|w: int| 0 <= w < q + 1 implies #[trigger] attained(ids@, w, q + 1) by {
                    assert(ids@[w] == w);
                }
            }
            next += 1;
        } else {
            let mut j: usize = 0;
            let mut found: Option<usize> = None;
            while j < q
                invariant
                    dfa.wf(),
                    s == dfa.states@.len(),
                    q < s,
                    j <= q,
                    found is None ==> forall|a: int| 0 <= a < j ==> !same_kernel(dfa, a, q as int),
                    found matches Some(x) ==> x < q && same_kernel(dfa, x as int, q as int),
                decreases q - j,
            {
                if found.is_none() && same_kernel_exec(dfa, j, q) {
                    found = Some(j);
                }
                j += 1;
            }
            match found {
                Some(x) => {
                    let v = ids[x];
                    ids.push(v);
                    proof {
                        lemma_attained_grow(ids0, ids@, q as int);
                        assert forall|a: int| 0 <= a < q + 1 && #[trigger] ids@[a] > 0 implies attained(ids@, ids@[a] - 1, a) by {
                            if a < q {
                                assert(ids@[a] == ids0[a]);
                                assert(attained(ids0, ids0[a] - 1, a));
                            } else {
                                assert(ids0[x as int] == v);
                                assert(attained(ids0, ids0[x as int] - 1, x as int));
                                let p2 = choose|p2: int| 0 <= p2 < x && #[trigger] ids0[p2] == v - 1;
                                assert(ids@[p2] == v - 1);
                            }
                        }
                        assert forall|w: int| 0 <= w < next implies #[trigger] attained(ids@, w, q + 1) by {
                            assert(attained(ids0, w, q as int));
                        }
                    }
                    proof {
                        assert forall|a: int, b: int| 0 <= a < q + 1 && 0 <= b < q + 1 implies (#[trigger] ids@[a] == #[trigger] ids@[b] <==> same_kernel(dfa, a, b)) by {
                            lemma_same_kernel_equiv(dfa, a, b, x as int, q as int);
                        }
                    }
                },
                None => {
                    ids.push(next);
                    proof {
                        lemma_attained_grow(ids0, ids@, q as int);
                        assert forall|a: int| 0 <= a < q + 1 && #[trigger] ids@[a] > 0 implies attained(ids@, ids@[a] - 1, a) by {
                            if a < q {
                                assert(ids@[a] == ids0[a]);
                                assert(attained(ids0, ids0[a] - 1, a));
                            } else {
                                assert(attained(ids0, next - 1, q as int));
                            }
                        }
                        assert forall|w: int| 0 <= w < next + 1 implies #[trigger] attained(ids@, w, q + 1) by {
                            if w < next {
                                assert(attained(ids0, w, q as int));
                            } else {
                                assert(ids@[q as int] == next);
                            }
                        }
                    }
                    proof {
                        assert forall|a: int, b: int| 0 <= a < q + 1 && 0 <= b < q + 1 implies (#[trigger] ids@[a] == #[trigger] ids@[b] <==> same_kernel(dfa, a, b)) by {
                            lemma_same_kernel_equiv(dfa, a, b, a, q as int);
                            if b == q && a < q {
                                assert(!same_kernel(dfa, a, q as int));
                            }
                            if a == q && b < q {
                                assert(!same_kernel(dfa, b, q as int));
                            }
                        }
                    }
                    next += 1;
                },
            }
        }
        q += 1;
    }
    ids
}

proof fn lemma_attained_grow(ids0: Seq<usize>, ids: Seq<usize>, q: int)
    requires
        ids.len() == q + 1,
        ids0.len() == q,
        forall|a: int| 0 <= a < q ==> ids[a] == ids0[a],
    ensures
        forall|v: int, b: int| b <= q && #[trigger] attained(ids0, v, b) ==> attained(ids, v, b),
        forall|v: int, b: int| b <= q && #[trigger] attained(ids0, v, b) ==> attained(ids, v, q + 1),
{
    assert forall|v: int, b: int| b <= q && #[trigger] attained(ids0, v, b) implies attained(ids, v, b) && attained(ids, v, q + 1) by {
        let p = choose|p: int| 0 <= p < b && #[trigger] ids0[p] == v;
        assert(ids[p] == v);
    }
}

proof fn lemma_same_kernel_equiv(dfa: &DetermenisticLR1Automaton, a: int, b: int, x: int, q: int)
    ensures
        same_kernel(dfa, a, a),
        same_kernel(dfa, a, b) == same_kernel(dfa, b, a),
        same_kernel(dfa, a, x) && same_kernel(dfa, x, q) ==> same_kernel(dfa, a, q),
        same_kernel(dfa, a, q) && same_kernel(dfa, x, q) ==> same_kernel(dfa, a, x),
        same_kernel(dfa, b, q) && same_kernel(dfa, x, q) ==> same_kernel(dfa, b, x),
        same_kernel(dfa, a, x) && same_kernel(dfa, b, x) ==> same_kernel(dfa, a, b),
{
    if same_kernel(dfa, a, b) {
        assert forall|r: usize, p: usize| #[trigger] kernel_has(dfa, b, r, p) == kernel_has(dfa, a, r, p) by {
            assert(kernel_has(dfa, a, r, p) == kernel_has(dfa, b, r, p));
        }
    }
    if same_kernel(dfa, b, a) {
        assert forall|r: usize, p: usize| #[trigger] kernel_has(dfa, a, r, p) == kernel_has(dfa, b, r, p) by {
            assert(kernel_has(dfa, b, r, p) == kernel_has(dfa, a, r, p));
        }
    }
    if same_kernel(dfa, a, x) && same_kernel(dfa, x, q) {
        assert forall|r: usize, p: usize| #[trigger] kernel_has(dfa, a, r, p) == kernel_has(dfa, q, r, p) by {
            assert(kernel_has(dfa, a, r, p) == kernel_has(dfa, x, r, p));
            assert(kernel_has(dfa, x, r, p) == kernel_has(dfa, q, r, p));
        }
    }
    if same_kernel(dfa, a, q) && same_kernel(dfa, x, q) {
        assert forall|r: usize, p: usize| #[trigger] kernel_has(dfa, a, r, p) == kernel_has(dfa, x, r, p) by {
            assert(kernel_has(dfa, a, r, p) == kernel_has(dfa, q, r, p));
            assert(kernel_has(dfa, x, r, p) == kernel_has(dfa, q, r, p));
        }
    }
    if same_kernel(dfa, b, q) && same_kernel(dfa, x, q) {
        assert forall|r: usize, p: usize| #[trigger] kernel_has(dfa, b, r, p) == kernel_has(dfa, x, r, p) by {
            assert(kernel_has(dfa, b, r, p) == kernel_has(dfa, q, r, p));
            assert(kernel_has(dfa, x, r, p) == kernel_has(dfa, q, r, p));
        }
    }
    if same_kernel(dfa, a, x) && same_kernel(dfa, b, x) {
        assert forall|r: usize, p: usize| #[trigger] kernel_has(dfa, a, r, p) == kernel_has(dfa, b, r, p) by {
            assert(kernel_has(dfa, a, r, p) == kernel_has(dfa, x, r, p));
            assert(kernel_has(dfa, b, r, p) == kernel_has(dfa, x, r, p));
        }
    }
}

/// The tag of lookahead `la`: a terminal, or the end marker.
pub open spec fn tag_of(g: &IndexedGrammar, la: usize) -> TagV {
    if la < g.nt() {
        TagV::T(g.terms@[la as int]@)
    } else {
        TagV::End
    }
}

/// The edge `e` out of state `q`, labelled by a terminal, asks for a shift.
pub open spec fn shift_req(dfa: &DetermenisticLR1Automaton, ids: Seq<usize>, q: int, e: int, key: (int, TagV), a: ActionV) -> bool {
    let (x, q2) = dfa.edges@[q]@[e];
    &&& 0 <= q < dfa.edges@.len()
    &&& 0 <= e < dfa.edges@[q]@.len()
    &&& x is T
    &&& key == (ids[q] as int, TagV::T(dfa.grammar.terms@[x->T_0 as int]@))
    &&& a == ActionV::Shift(ids[q2 as int] as int)
}

/// The reducible item `i` of state `q` asks for a reduce, or for accepting
/// when its rule is the one of `ROOT`.
pub open spec fn reduce_req(dfa: &DetermenisticLR1Automaton, ids: Seq<usize>, q: int, i: int, key: (int, TagV), a: ActionV) -> bool {
    let it = dfa.items@[i];
    let g = &dfa.grammar;
    &&& 0 <= q < dfa.states@.len()
    &&& 0 <= i < dfa.items@.len()
    &&& dfa.state(q)[i]
    &&& it.position == g.rhs(it.rule as int).len()
    &&& if g.rule_view(it.rule as int).left == root_name() {
        key == (ids[q] as int, TagV::End) && a == ActionV::Accept
    } else {
        key == (ids[q] as int, tag_of(g, it.lookup)) && a == ActionV::Reduce(g.rule_view(it.rule as int))
    }
}

pub open spec fn action_req(dfa: &DetermenisticLR1Automaton, ids: Seq<usize>, key: (int, TagV), a: ActionV) -> bool {
    (exists|q: int, e: int| #[trigger] shift_req(dfa, ids, q, e, key, a)) || (exists|q: int, i: int| #[trigger] reduce_req(dfa, ids, q, i, key, a))
}

/// The edge `e` out of state `q`, labelled by a non-terminal, asks for a goto.
pub open spec fn goto_req(dfa: &DetermenisticLR1Automaton, ids: Seq<usize>, q: int, e: int, key: (int, Seq<char>), target: int) -> bool {
    let (x, q2) = dfa.edges@[q]@[e];
    &&& 0 <= q < dfa.edges@.len()
    &&& 0 <= e < dfa.edges@[q]@.len()
    &&& x is N
    &&& key == (ids[q] as int, dfa.grammar.nterms@[x->N_0 as int]@)
    &&& target == ids[q2 as int] as int
}

pub open spec fn goto_entry_req(dfa: &DetermenisticLR1Automaton, ids: Seq<usize>, entry: ((int, Seq<char>), int)) -> bool {
    exists|q: int, e: int| #[trigger] goto_req(dfa, ids, q, e, entry.0, entry.1)
}

/// The tables hold what the automaton asks for, and nothing else.
pub open spec fn tables_of(dfa: &DetermenisticLR1Automaton, ids: Seq<usize>, t: crate::grammar::TablesV) -> bool {
    &&& t.start == ids[dfa.start as int] as int
    &&& keys_unique(t.action)
    &&& keys_unique(t.goto)
    &&& forall|i: int| 0 <= i < t.action.len() ==> action_req(dfa, ids, #[trigger] t.action[i].0, t.action[i].1)
    &&& forall|key: (int, TagV), a: ActionV| #[trigger] action_req(dfa, ids, key, a) ==> lookup_action(t.action, key.0, key.1) == Some(a)
    &&& forall|i: int| 0 <= i < t.goto.len() ==> goto_entry_req(dfa, ids, #[trigger] t.goto[i])
    &&& forall|q: int, e: int, key: (int, Seq<char>), target: int| #[trigger] goto_req(dfa, ids, q, e, key, target)
        ==> exists|j: int| 0 <= j < t.goto.len() && #[trigger] t.goto[j].0 == key
}

proof fn lemma_lookup_push(s: Seq<((int, TagV), ActionV)>, x: ((int, TagV), ActionV), q: int, t: TagV)
    requires
        lookup_action(s, q, t) is Some,
    ensures
        lookup_action(s.push(x), q, t) == lookup_action(s, q, t),
    decreases s.len(),
{
    if s[0].0 != (q, t) {
        assert(s.push(x).drop_first() =~= s.drop_first().push(x));
        lemma_lookup_push(s.drop_first(), x, q, t);
    }
}

impl ParseTables {
    /// Projects the automaton to tables, numbering states as `tables_type`
    /// asks. Fails on the first entry that would hold two different
    /// actions: a shift-reduce conflict when one of them is a shift, else a
    /// reduce-reduce conflict (which includes an accept meeting a reduce).
    #[verifier::rlimit(100)]
    #[verifier::spinoff_prover]
    pub fn from_automaton(automaton: &DetermenisticLR1Automaton, tables_type: ParseTablesType) -> (r: Result<ParseTables, GeneratorError>)
        requires
            automaton.wf(),
        ensures
            match r {
                Ok(t) => exists|ids: Seq<usize>| valid_ids(automaton, tables_type is LALR, ids) && tables_of(automaton, ids, t@),
                Err(e) => e is ShiftReduceConflict || e is ReduceReduceConflict || (e is TooLarge
                    && automaton.states@.len() >= i32::MAX),
            },
            r is Err && !(r->Err_0 is TooLarge) ==> exists|ids: Seq<usize>| valid_ids(automaton, tables_type is LALR, ids)
                && #[trigger] conflict_between(automaton, ids, r->Err_0),
            r is Ok ==> accepts_only_at_end(r->Ok_0@),
            r is Ok ==> automaton.states@.len() < i32::MAX,
    {
        let dfa = automaton;
        let g = &dfa.grammar;
        if dfa.states.len() >= i32::MAX as usize {
            return Err(GeneratorError::TooLarge);
        }
        let lalr = match tables_type {
            ParseTablesType::LR1 => false,
            ParseTablesType::LALR => true,
        };
        let ids = state_ids(dfa, lalr);
        let ghost gids = ids@;
        let mut res = ParseTables { start: ids[dfa.start] as i32, action: Vec::new(), goto: Vec::new() };
        let s = dfa.states.len();
        let n = dfa.items.len();
        let mut q: usize = 0;
        while q < s
            invariant
                dfa.wf(),
                g == &dfa.grammar,
                s == dfa.states@.len(),
                s < i32::MAX,
                n == dfa.items@.len(),
                ids@ == gids,
                valid_ids(dfa, lalr, gids),
                lalr == (tables_type is LALR),
                dfa == automaton,
                q <= s,
                res@.start == gids[dfa.start as int] as int,
                keys_unique(res@.action),
                keys_unique(res@.goto),
                accepts_only_at_end(res@),
                forall|i: int| 0 <= i < res@.action.len() ==> action_req(dfa, gids, #[trigger] res@.action[i].0, res@.action[i].1),
                forall|i: int| 0 <= i < res@.goto.len() ==> goto_entry_req(dfa, gids, #[trigger] res@.goto[i]),
                forall|q2: int, e: int, key: (int, TagV), a: ActionV| 0 <= q2 < q && #[trigger] shift_req(dfa, gids, q2, e, key, a)
                    ==> lookup_action(res@.action, key.0, key.1) == Some(a),
                forall|q2: int, i: int, key: (int, TagV), a: ActionV| 0 <= q2 < q && #[trigger] reduce_req(dfa, gids, q2, i, key, a)
                    ==> lookup_action(res@.action, key.0, key.1) == Some(a),
                forall|q2: int, e: int, key: (int, Seq<char>), target: int| 0 <= q2 < q && #[trigger] goto_req(dfa, gids, q2, e, key, target)
                    ==> exists|j: int| 0 <= j < res@.goto.len() && #[trigger] res@.goto[j].0 == key,
            decreases s - q,
        {
            let id = ids[q] as i32;
            let out = &dfa.edges[q];
            let mut e: usize = 0;
            while e < out.len()
                invariant
                    dfa.wf(),
                    g == &dfa.grammar,
                    s == dfa.states@.len(),
                    s < i32::MAX,
                    ids@ == gids,
                    valid_ids(dfa, lalr, gids),
                    lalr == (tables_type is LALR),
                    dfa == automaton,
                    q < s,
                    id == gids[q as int] as i32,
                    out == dfa.edges@[q as int],
                    e <= out@.len(),
                    res@.start == gids[dfa.start as int] as int,
                    keys_unique(res@.action),
                    keys_unique(res@.goto),
                    accepts_only_at_end(res@),
                    forall|i: int| 0 <= i < res@.action.len() ==> action_req(dfa, gids, #[trigger] res@.action[i].0, res@.action[i].1),
                    forall|i: int| 0 <= i < res@.goto.len() ==> goto_entry_req(dfa, gids, #[trigger] res@.goto[i]),
                    forall|q2: int, e: int, key: (int, TagV), a: ActionV| 0 <= q2 < q && #[trigger] shift_req(dfa, gids, q2, e, key, a)
                        ==> lookup_action(res@.action, key.0, key.1) == Some(a),
                    forall|q2: int, i: int, key: (int, TagV), a: ActionV| 0 <= q2 < q && #[trigger] reduce_req(dfa, gids, q2, i, key, a)
                        ==> lookup_action(res@.action, key.0, key.1) == Some(a),
                    forall|q2: int, e: int, key: (int, Seq<char>), target: int| 0 <= q2 < q && #[trigger] goto_req(dfa, gids, q2, e, key, target)
                        ==> exists|j: int| 0 <= j < res@.goto.len() && #[trigger] res@.goto[j].0 == key,
                    forall|f: int, key: (int, TagV), a: ActionV| 0 <= f < e && #[trigger] shift_req(dfa, gids, q as int, f, key, a)
                        ==> lookup_action(res@.action, key.0, key.1) == Some(a),
                    forall|f: int, key: (int, Seq<char>), target: int| 0 <= f < e && #[trigger] goto_req(dfa, gids, q as int, f, key, target)
                        ==> exists|j: int| 0 <= j < res@.goto.len() && #[trigger] res@.goto[j].0 == key,
                decreases out.len() - e,
            {
                let (x, q2) = out[e];
                assert(g.sym_ok(x));
                let id2 = ids[q2] as i32;
                let ghost before = res@;
                match x {
                    Sym::T(t) => {
                        let tag = TerminalOrFinish::Terminal(Terminal(copy_string(&g.terms[t])));
                        let act = LR1Action::Shift(id2);
                        let ghost key = (id as int, tag@);
                        assert(shift_req(dfa, gids, q as int, e as int, key, act@));
                        assert(action_req(dfa, gids, key, act@));
                        let ghost act_v = act@;
                        match try_add_action(&mut res, id, tag, act) {
                            Ok(()) => {},
                            Err(err) => {
                                proof {
                                    assert(lookup_action(before.action, key.0, key.1) is Some);
                                    assert(lookup_action(before.action, key.0, key.1) != Some(act_v));
                                    assert(action_req(dfa, gids, key, act_v));
                                    lemma_conflict_found(dfa, gids, before, key, act_v);
                                    assert(conflict_between(automaton, gids, err));
                                    assert(valid_ids(automaton, tables_type is LALR, gids));
                                }
                                return Err(err);
                            },
                        }
                        proof {
                            lemma_after_add(before, res@, key, act_v);
                            assert(accepts_only_at_end(res@));
                        }
                    },
                    Sym::N(nt) => {
                        let ghost key = (id as int, g.nterms@[nt as int]@);
                        assert(goto_req(dfa, gids, q as int, e as int, key, id2 as int));
                        set_goto(&mut res, id, Nonterminal(copy_string(&g.nterms[nt])), id2);
                        proof {
                            assert forall|i: int| 0 <= i < res@.goto.len() implies goto_entry_req(dfa, gids, #[trigger] res@.goto[i]) by {
                                if res@.goto[i] != (key, id2 as int) {
                                    let j = choose|j: int| 0 <= j < before.goto.len() && before.goto[j] == res@.goto[i];
                                    assert(goto_entry_req(dfa, gids, before.goto[j]));
                                } else {
                                    assert(goto_req(dfa, gids, q as int, e as int, res@.goto[i].0, res@.goto[i].1));
                                }
                            }
                            assert forall|q3: int, f: int, k2: (int, Seq<char>), target: int| (0 <= q3 < q || (q3 == q && 0 <= f < e + 1)) && #[trigger] goto_req(dfa, gids, q3, f, k2, target)
                                implies exists|j: int| 0 <= j < res@.goto.len() && #[trigger] res@.goto[j].0 == k2 by {
                                if k2 == key {
                                    let j = choose|j: int| 0 <= j < res@.goto.len() && res@.goto[j] == ((id as int, key.1), id2 as int);
                                    assert(res@.goto[j].0 == k2);
                                } else if !(q3 == q && f == e) {
                                    let j = choose|j: int| 0 <= j < before.goto.len() && #[trigger] before.goto[j].0 == k2;
                                    let x = choose|x: int| 0 <= x < res@.goto.len() && #[trigger] res@.goto[x] == before.goto[j];
                                    assert(res@.goto[x].0 == k2);
                                }
                            }
                        }
                    },
                }
                e += 1;
            }
            let mut i: usize = 0;
            while i < n
                invariant
                    dfa.wf(),
                    g == &dfa.grammar,
                    s == dfa.states@.len(),
                    s < i32::MAX,
                    n == dfa.items@.len(),
                    ids@ == gids,
                    valid_ids(dfa, lalr, gids),
                    lalr == (tables_type is LALR),
                    dfa == automaton,
                    q < s,
                    id == gids[q as int] as i32,
                    out == dfa.edges@[q as int],
                    i <= n,
                    res@.start == gids[dfa.start as int] as int,
                    keys_unique(res@.action),
                    keys_unique(res@.goto),
                    accepts_only_at_end(res@),
                    forall|i: int| 0 <= i < res@.action.len() ==> action_req(dfa, gids, #[trigger] res@.action[i].0, res@.action[i].1),
                    forall|i: int| 0 <= i < res@.goto.len() ==> goto_entry_req(dfa, gids, #[trigger] res@.goto[i]),
                    forall|q2: int, e: int, key: (int, TagV), a: ActionV| 0 <= q2 <= q && #[trigger] shift_req(dfa, gids, q2, e, key, a)
                        ==> lookup_action(res@.action, key.0, key.1) == Some(a),
                    forall|q2: int, i: int, key: (int, TagV), a: ActionV| 0 <= q2 < q && #[trigger] reduce_req(dfa, gids, q2, i, key, a)
                        ==> lookup_action(res@.action, key.0, key.1) == Some(a),
                    forall|q2: int, e: int, key: (int, Seq<char>), target: int| 0 <= q2 <= q && #[trigger] goto_req(dfa, gids, q2, e, key, target)
                        ==> exists|j: int| 0 <= j < res@.goto.len() && #[trigger] res@.goto[j].0 == key,
                    forall|f: int, key: (int, TagV), a: ActionV| 0 <= f < i && #[trigger] reduce_req(dfa, gids, q as int, f, key, a)
                        ==> lookup_action(res@.action, key.0, key.1) == Some(a),
                decreases n - i,
            {
                let it = dfa.items[i];
                assert(item_ok_at(dfa, i as int));
                if dfa.states[q][i] && it.position == g.rules[it.rule].right.len() {
                    let ghost before = res@;
                    let (tag, act) = if g.is_root_rule(it.rule) {
                        (TerminalOrFinish::Finish, LR1Action::Accept)
                    } else {
                        let tag = if it.lookup < g.terms.len() {
                            TerminalOrFinish::Terminal(Terminal(copy_string(&g.terms[it.lookup])))
                        } else {
                            TerminalOrFinish::Finish
                        };
                        (tag, LR1Action::Reduce(g.rule_value(it.rule)))
                    };
                    let ghost key = (id as int, tag@);
                    assert(reduce_req(dfa, gids, q as int, i as int, key, act@));
                    assert(action_req(dfa, gids, key, act@));
                    let ghost act_v = act@;
                    match try_add_action(&mut res, id, tag, act) {
                        Ok(()) => {},
                        Err(err) => {
                            proof {
                                lemma_conflict_found(dfa, gids, before, key, act_v);
                                assert(valid_ids(automaton, tables_type is LALR, gids) && conflict_between(automaton, gids, err));
                            }
                            return Err(err);
                        },
                    }
                    proof {
                        lemma_after_add(before, res@, key, act_v);
                    }
                }
                i += 1;
            }
            q += 1;
        }
        proof {
            assert forall|key: (int, TagV), a: ActionV| #[trigger] action_req(dfa, gids, key, a) implies lookup_action(res@.action, key.0, key.1) == Some(a) by {
                if exists|q: int, e: int| #[trigger] shift_req(dfa, gids, q, e, key, a) {
                    let (q, e) = choose|q: int, e: int| #[trigger] shift_req(dfa, gids, q, e, key, a);
                } else {
                    let (q, i) = choose|q: int, i: int| #[trigger] reduce_req(dfa, gids, q, i, key, a);
                }
            }
            assert(lalr == tables_type is LALR);
            assert(tables_of(dfa, gids, res@));
            assert(valid_ids(automaton, tables_type is LALR, gids));
        }
        let ghost rv = res@;
        assert(valid_ids(automaton, tables_type is LALR, gids) && tables_of(automaton, gids, rv));
        let r: Result<ParseTables, GeneratorError> = Ok(res);
        assert(r->Ok_0@ == rv);
        r
    }
}

spec fn item_ok_at(dfa: &DetermenisticLR1Automaton, i: int) -> bool {
    0 <= i < dfa.items@.len() ==> crate::nfa::item_ok(&dfa.grammar, dfa.items@[i])
}

/// After an addition that succeeded, what was there stays, and the new key
/// holds the new action.
proof fn lemma_after_add(before: crate::grammar::TablesV, after: crate::grammar::TablesV, key: (int, TagV), a: ActionV)
    requires
        keys_unique(after.action),
        match lookup_action(before.action, key.0, key.1) {
            None => after.action == before.action.push((key, a)),
            Some(b) => b == a && after.action == before.action,
        },
    ensures
        lookup_action(after.action, key.0, key.1) == Some(a),
        forall|k: (int, TagV)| lookup_action(before.action, k.0, k.1) is Some ==> #[trigger] lookup_action(after.action, k.0, k.1) == lookup_action(before.action, k.0, k.1),
        forall|i: int| 0 <= i < after.action.len() ==> (#[trigger] after.action[i] == (key, a) || exists|j: int| 0 <= j < before.action.len() && before.action[j] == after.action[i]),
{
    match lookup_action(before.action, key.0, key.1) {
        None => {
            crate::grammar::lemma_lookup_action_unique(after.action, before.action.len() as int);
            assert forall|k: (int, TagV)| lookup_action(before.action, k.0, k.1) is Some implies #[trigger] lookup_action(after.action, k.0, k.1) == lookup_action(before.action, k.0, k.1) by {
                lemma_lookup_push(before.action, (key, a), k.0, k.1);
            }
            assert forall|i: int| 0 <= i < after.action.len() implies (#[trigger] after.action[i] == (key, a) || exists|j: int| 0 <= j < before.action.len() && before.action[j] == after.action[i]) by {
                if i < before.action.len() {
                    assert(before.action[i] == after.action[i]);
                }
            }
        },
        Some(b) => {
            assert forall|i: int| 0 <= i < after.action.len() implies (#[trigger] after.action[i] == (key, a) || exists|j: int| 0 <= j < before.action.len() && before.action[j] == after.action[i]) by {
                assert(before.action[i] == after.action[i]);
            }
        },
    }
}

/// Tables that the pipeline makes from grammar `gv`: the item graph of
/// `gv`, its subset construction, and the projection of that.
pub open spec fn generated_from(gv: crate::grammar::GrammarV, lalr: bool, t: crate::grammar::TablesV) -> bool {
    exists|nfa: NonDeterministicLR1Automaton, dfa: DetermenisticLR1Automaton, ids: Seq<usize>|
        nfa.wf() && nfa.grammar.models(gv) && dfa.wf() && #[trigger] dfa.built_from(&nfa)
            && valid_ids(&dfa, lalr, ids) && #[trigger] tables_of(&dfa, ids, t)
}

/// `tokens` is how the meta-grammar lexer reads `text`: one token per word
/// or bracket, in order, the end marker last, every other character blank.
pub open spec fn lexed(text: Seq<char>, tokens: Seq<crate::grammar::Token<crate::meta::TokenAttribute>>) -> bool {
    &&& crate::driver::well_terminated(tokens)
    &&& forall|i: int| 0 <= i < tokens.len() - 1 ==> crate::meta::lexeme_ok(text, #[trigger] tokens[i])
    &&& forall|i: int| 0 <= i < tokens.len() - 1 ==> crate::meta::meta_tag((#[trigger] tokens[i]).tag->Terminal_0@)
    &&& forall|i: int| 0 <= i < tokens.len() - 2 ==> (#[trigger] tokens[i]).attribute.fragment.end.index <= tokens[i + 1].attribute.fragment.begin.index
    &&& forall|k: int| 0 <= k < text.len() ==> #[trigger] crate::meta::covered(text, tokens, k)
}

/// The meta-grammar's tables accept `tokens`, and `tree` is the tree the
/// driver's run builds: its leaves are the tokens but the end marker.
pub open spec fn meta_parse(tokens: Seq<crate::grammar::Token<crate::meta::TokenAttribute>>, tree: crate::grammar::ParseTree<crate::meta::TokenAttribute>) -> bool {
    &&& crate::driver::run_of(crate::meta_tables::meta_tables(), tokens) is Accept
    &&& crate::driver::shape(tree) == crate::driver::run_of(crate::meta_tables::meta_tables(), tokens)->Accept_1
    &&& crate::driver::tree_yield(tree) == crate::driver::tags(tokens.drop_last())
    &&& crate::driver::tree_by_rules(tree, crate::meta_tables::meta_tables())
}

/// `text` parses to a tree that describes a grammar without a rule group
/// named `ROOT`, and `g` is that grammar augmented.
pub open spec fn read_from_text(text: Seq<char>, g: crate::grammar::GrammarV) -> bool {
    exists|tokens: Seq<crate::grammar::Token<crate::meta::TokenAttribute>>, tree: crate::grammar::ParseTree<crate::meta::TokenAttribute>|
        #[trigger] lexed(text, tokens) && #[trigger] meta_parse(tokens, tree)
            && crate::meta::grammar_of(tree) is Some
            && !crate::grammar::defines_root(crate::meta::grammar_of(tree)->Some_0)
            && g == crate::grammar::augmented(crate::meta::grammar_of(tree)->Some_0)
}

/// The automaton of `g` exists in a form whose numbering gives error `e`.
pub open spec fn generated_conflict(g: crate::grammar::GrammarV, lalr: bool, e: GeneratorError) -> bool {
    exists|nfa: NonDeterministicLR1Automaton, dfa: DetermenisticLR1Automaton, ids: Seq<usize>|
        nfa.wf() && nfa.grammar.models(g) && dfa.wf() && #[trigger] dfa.built_from(&nfa)
            && valid_ids(&dfa, lalr, ids) && #[trigger] conflict_between(&dfa, ids, e)
}

/// `g` is too large: its size squared does not fit in `usize`, or its
/// automaton has more states than `i32` numbers.
pub open spec fn too_large(g: crate::grammar::GrammarV) -> bool {
    crate::indexed::grammar_size(g.rules) * crate::indexed::grammar_size(g.rules) >= usize::MAX
        || exists|nfa: NonDeterministicLR1Automaton, dfa: DetermenisticLR1Automaton|
            nfa.wf() && nfa.grammar.models(g) && dfa.wf() && #[trigger] dfa.built_from(&nfa) && dfa.states@.len() >= i32::MAX
}

/// Number of symbols in the rules, counting each left side; `None` when it
/// does not fit in `usize`.
fn grammar_size_exec(g: &crate::grammar::Grammar) -> (r: Option<usize>)
    ensures
        r matches Some(n) ==> n == crate::indexed::grammar_size(g@.rules),
        r is None ==> crate::indexed::grammar_size(g@.rules) >= usize::MAX,
{
    let mut total: usize = 0;
    let mut i: usize = 0;
    while i < g.rules.len()
        invariant
            i <= g.rules@.len(),
            total == crate::indexed::grammar_size(g@.rules.subrange(0, i as int)),
        decreases g.rules.len() - i,
    {
        let len = g.rules[i].right.len();
        if total >= usize::MAX || len > usize::MAX - 1 - total {
            proof {
                crate::indexed::lemma_grammar_size_step(g@.rules, i as int);
                crate::indexed::lemma_grammar_size_prefix(g@.rules, i + 1);
            }
            return None;
        }
        proof {
            assert(g@.rules.subrange(0, i + 1).drop_last() =~= g@.rules.subrange(0, i as int));
        }
        total = total + 1 + len;
        i += 1;
    }
    assert(g@.rules.subrange(0, i as int) =~= g@.rules);
    Some(total)
}

/// Reads the grammar that a text describes, augmented and checked for
/// undeclared non-terminals. Each error names its cause.
#[verifier::rlimit(100)]
#[verifier::spinoff_prover]
pub fn read_grammar(input: &str) -> (r: Result<crate::grammar::Grammar, GeneratorError>)
    requires
        input@.len() < i32::MAX,
    ensures
        r is Ok ==> read_from_text(input@, r->Ok_0@) && crate::grammar::all_declared(r->Ok_0@),
        r is Err ==> r->Err_0 is ParseError || r->Err_0 is UnexpectedTree || r->Err_0 is RootRedefined || r->Err_0 is UndeclaredNonterminal,
            r matches Err(GeneratorError::ParseError(e)) ==> exists|tokens: Seq<crate::grammar::Token<crate::meta::TokenAttribute>>|
                #[trigger] lexed(input@, tokens) && crate::driver::run_of(crate::meta_tables::meta_tables(), tokens) is Fail
                    && e.token.tag@ == tokens[crate::driver::run_of(crate::meta_tables::meta_tables(), tokens)->Fail_0].tag@,
            r matches Err(GeneratorError::UnexpectedTree) ==> exists|tokens: Seq<crate::grammar::Token<crate::meta::TokenAttribute>>, tree: crate::grammar::ParseTree<crate::meta::TokenAttribute>|
                #[trigger] lexed(input@, tokens) && #[trigger] meta_parse(tokens, tree) && crate::meta::grammar_of(tree) is None,
            r matches Err(GeneratorError::RootRedefined) ==> exists|tokens: Seq<crate::grammar::Token<crate::meta::TokenAttribute>>, tree: crate::grammar::ParseTree<crate::meta::TokenAttribute>|
                #[trigger] lexed(input@, tokens) && #[trigger] meta_parse(tokens, tree) && crate::meta::grammar_of(tree) is Some
                    && crate::grammar::defines_root(crate::meta::grammar_of(tree)->Some_0),
            r matches Err(GeneratorError::UndeclaredNonterminal(n)) ==> exists|gv: crate::grammar::GrammarV|
                #[trigger] read_from_text(input@, gv) && crate::grammar::first_undeclared(gv, n@),
{
    let mut lexer = crate::meta::Lexer::new(input);
    let tokens = lexer.get_tokens();
    let ghost tv = tokens@;
    assert(lexed(input@, tv));
    let meta = crate::meta_tables::get_parse_tables();
    let slice = tokens.as_slice();
    assert(slice@ == tv);
    let tree = match crate::grammar::ParseTree::from_tables_and_tokens(&meta, slice) {
        Ok(t) => t,
        Err(e) => {
            return Err(GeneratorError::ParseError(e));
        },
    };
    let ghost tr = tree;
    proof {
        assert(tv.subrange(0, tv.len() - 1) =~= tv.drop_last());
        assert(meta_parse(tv, tr));
    }
    match crate::meta::get_grammar_from_tree(&tree) {
        Ok(g) => {
            assert(read_from_text(input@, g@));
            Ok(g)
        },
        Err(e) => {
            proof {
                if crate::meta::grammar_of(tr) is Some && !crate::grammar::defines_root(crate::meta::grammar_of(tr)->Some_0) {
                    assert(read_from_text(input@, crate::grammar::augmented(crate::meta::grammar_of(tr)->Some_0)));
                }
            }
            Err(e)
        },
    }
}

impl ParseTables {
    /// Reads a grammar text, augments it, and makes its tables. Each error
    /// names its cause.
    #[verifier::rlimit(100)]
    #[verifier::spinoff_prover]
    pub fn from_string(input: &str, tables_type: ParseTablesType) -> (r: Result<ParseTables, GeneratorError>)
        requires
            input@.len() < i32::MAX,
        ensures
            r is Ok ==> accepts_only_at_end(r->Ok_0@) && exists|gv: crate::grammar::GrammarV|
                read_from_text(input@, gv) && crate::grammar::all_declared(gv) && #[trigger] generated_from(gv, tables_type is LALR, r->Ok_0@),
            r matches Err(GeneratorError::ParseError(e)) ==> exists|tokens: Seq<crate::grammar::Token<crate::meta::TokenAttribute>>|
                #[trigger] lexed(input@, tokens) && crate::driver::run_of(crate::meta_tables::meta_tables(), tokens) is Fail
                    && e.token.tag@ == tokens[crate::driver::run_of(crate::meta_tables::meta_tables(), tokens)->Fail_0].tag@,
            r matches Err(GeneratorError::UnexpectedTree) ==> exists|tokens: Seq<crate::grammar::Token<crate::meta::TokenAttribute>>, tree: crate::grammar::ParseTree<crate::meta::TokenAttribute>|
                #[trigger] lexed(input@, tokens) && #[trigger] meta_parse(tokens, tree) && crate::meta::grammar_of(tree) is None,
            r matches Err(GeneratorError::RootRedefined) ==> exists|tokens: Seq<crate::grammar::Token<crate::meta::TokenAttribute>>, tree: crate::grammar::ParseTree<crate::meta::TokenAttribute>|
                #[trigger] lexed(input@, tokens) && #[trigger] meta_parse(tokens, tree) && crate::meta::grammar_of(tree) is Some
                    && crate::grammar::defines_root(crate::meta::grammar_of(tree)->Some_0),
            r matches Err(GeneratorError::UndeclaredNonterminal(n)) ==> exists|gv: crate::grammar::GrammarV|
                #[trigger] read_from_text(input@, gv) && crate::grammar::first_undeclared(gv, n@),
            r matches Err(GeneratorError::TooLarge) ==> exists|gv: crate::grammar::GrammarV|
                #[trigger] read_from_text(input@, gv) && crate::grammar::all_declared(gv) && too_large(gv),
            r is Err && (r->Err_0 is ShiftReduceConflict || r->Err_0 is ReduceReduceConflict) ==> exists|gv: crate::grammar::GrammarV|
                #[trigger] read_from_text(input@, gv) && crate::grammar::all_declared(gv) && generated_conflict(gv, tables_type is LALR, r->Err_0),
    {
        let grammar = match read_grammar(input) {
            Ok(g) => g,
            Err(e) => return Err(e),
        };
        let ghost gv = grammar@;
        let size = match grammar_size_exec(&grammar) {
            Some(s) => s,
            None => {
                proof {
                    let n = crate::indexed::grammar_size(gv.rules);
                    assert(n * n >= usize::MAX) by (nonlinear_arith)
                        requires n >= usize::MAX;
                }
                return Err(GeneratorError::TooLarge);
            },
        };
        match size.checked_mul(size) {
            Some(sq) => {
                if sq == usize::MAX {
                    return Err(GeneratorError::TooLarge);
                }
            },
            None => return Err(GeneratorError::TooLarge),
        }
        assert(crate::grammar::declared(gv, root_name())) by {
            let (tokens, tree) = choose|tokens: Seq<crate::grammar::Token<crate::meta::TokenAttribute>>, tree: crate::grammar::ParseTree<crate::meta::TokenAttribute>|
                #[trigger] lexed(input@, tokens) && #[trigger] meta_parse(tokens, tree)
                    && crate::meta::grammar_of(tree) is Some
                    && !crate::grammar::defines_root(crate::meta::grammar_of(tree)->Some_0)
                    && gv == crate::grammar::augmented(crate::meta::grammar_of(tree)->Some_0);
            assert(gv.rules[gv.rules.len() - 1].left == root_name());
        }
        let nfa = NonDeterministicLR1Automaton::from_grammar(&grammar);
        let dfa = DetermenisticLR1Automaton::from_non_deterministic(&nfa);
        let r = ParseTables::from_automaton(&dfa, tables_type);
        proof {
            if r is Ok {
                let ids = choose|ids: Seq<usize>| valid_ids(&dfa, tables_type is LALR, ids) && tables_of(&dfa, ids, r->Ok_0@);
                assert(dfa.built_from(&nfa) && tables_of(&dfa, ids, r->Ok_0@));
                assert(generated_from(gv, tables_type is LALR, r->Ok_0@));
            } else if r->Err_0 is TooLarge {
                assert(dfa.built_from(&nfa) && dfa.states@.len() >= i32::MAX);
                assert(too_large(gv));
            } else {
                let ids = choose|ids: Seq<usize>| valid_ids(&dfa, tables_type is LALR, ids) && #[trigger] conflict_between(&dfa, ids, r->Err_0);
                assert(dfa.built_from(&nfa) && conflict_between(&dfa, ids, r->Err_0));
                assert(generated_conflict(gv, tables_type is LALR, r->Err_0));
            }
        }
        r
    }
}

/// Table totality: in generated tables, every state has an ACTION entry for
/// each terminal that labels one of its outgoing edges and for each
/// lookahead of one of its reducible items.
pub proof fn lemma_table_totality(dfa: &DetermenisticLR1Automaton, ids: Seq<usize>, t: crate::grammar::TablesV, q: int, k: int)
    requires
        dfa.wf(),
        tables_of(dfa, ids, t),
        0 <= q < dfa.states@.len(),
    ensures
        0 <= k < dfa.edges@[q]@.len() && dfa.edges@[q]@[k].0 is T ==> lookup_action(
            t.action,
            ids[q] as int,
            TagV::T(dfa.grammar.terms@[dfa.edges@[q]@[k].0->T_0 as int]@),
        ) is Some,
        0 <= k < dfa.items@.len() && dfa.state(q)[k] && dfa.items@[k].position == dfa.grammar.rhs(dfa.items@[k].rule as int).len()
            ==> lookup_action(t.action, ids[q] as int, if dfa.grammar.rule_view(dfa.items@[k].rule as int).left == root_name() {
                TagV::End
            } else {
                tag_of(&dfa.grammar, dfa.items@[k].lookup)
            }) is Some,
{
    if 0 <= k < dfa.edges@[q]@.len() && dfa.edges@[q]@[k].0 is T {
        let (x, q2) = dfa.edges@[q]@[k];
        let key = (ids[q] as int, TagV::T(dfa.grammar.terms@[x->T_0 as int]@));
        assert(shift_req(dfa, ids, q, k, key, ActionV::Shift(ids[q2 as int] as int)));
        assert(action_req(dfa, ids, key, ActionV::Shift(ids[q2 as int] as int)));
    }
    if 0 <= k < dfa.items@.len() && dfa.state(q)[k] && dfa.items@[k].position == dfa.grammar.rhs(dfa.items@[k].rule as int).len() {
        let it = dfa.items@[k];
        let g = &dfa.grammar;
        if g.rule_view(it.rule as int).left == root_name() {
            assert(reduce_req(dfa, ids, q, k, (ids[q] as int, TagV::End), ActionV::Accept));
            assert(action_req(dfa, ids, (ids[q] as int, TagV::End), ActionV::Accept));
        } else {
            let key = (ids[q] as int, tag_of(g, it.lookup));
            let a = ActionV::Reduce(g.rule_view(it.rule as int));
            assert(reduce_req(dfa, ids, q, k, key, a));
            assert(action_req(dfa, ids, key, a));
        }
    }
}

/// Two different actions are asked for one entry.
pub open spec fn has_conflict(dfa: &DetermenisticLR1Automaton, ids: Seq<usize>) -> bool {
    exists|key: (int, TagV), a1: ActionV, a2: ActionV|
        #[trigger] action_req(dfa, ids, key, a1) && #[trigger] action_req(dfa, ids, key, a2) && a1 != a2
}

/// Two different actions are asked for one entry, and `e` is the error
/// that their meeting gives.
pub open spec fn conflict_between(dfa: &DetermenisticLR1Automaton, ids: Seq<usize>, e: GeneratorError) -> bool {
    exists|key: (int, TagV), a1: ActionV, a2: ActionV|
        #[trigger] action_req(dfa, ids, key, a1) && #[trigger] action_req(dfa, ids, key, a2) && a1 != a2 && e == conflict_of(a1, a2)
}

proof fn lemma_conflict_found(dfa: &DetermenisticLR1Automaton, ids: Seq<usize>, t: crate::grammar::TablesV, key: (int, TagV), a: ActionV)
    requires
        forall|i: int| 0 <= i < t.action.len() ==> action_req(dfa, ids, #[trigger] t.action[i].0, t.action[i].1),
        action_req(dfa, ids, key, a),
        lookup_action(t.action, key.0, key.1) is Some,
        lookup_action(t.action, key.0, key.1) != Some(a),
    ensures
        has_conflict(dfa, ids),
        conflict_between(dfa, ids, conflict_of(a, lookup_action(t.action, key.0, key.1)->Some_0)),
{
    crate::driver::lemma_lookup_found(t.action, key.0, key.1);
    let i = choose|i: int| 0 <= i < t.action.len() && t.action[i].0 == (key.0, key.1) && t.action[i].1 == lookup_action(t.action, key.0, key.1)->Some_0;
    assert(action_req(dfa, ids, t.action[i].0, t.action[i].1));
    assert(t.action[i].0 == key);
}

/// Tables made without error ask for one action per entry.
pub proof fn lemma_tables_no_conflict(dfa: &DetermenisticLR1Automaton, ids: Seq<usize>, t: crate::grammar::TablesV)
    requires
        tables_of(dfa, ids, t),
    ensures
        !has_conflict(dfa, ids),
{
    if has_conflict(dfa, ids) {
        let (key, a1, a2) = choose|key: (int, TagV), a1: ActionV, a2: ActionV|
            #[trigger] action_req(dfa, ids, key, a1) && #[trigger] action_req(dfa, ids, key, a2) && a1 != a2;
        assert(lookup_action(t.action, key.0, key.1) == Some(a1));
        assert(lookup_action(t.action, key.0, key.1) == Some(a2));
    }
}

/// A conflict of the LR(1) numbering is a conflict of any LALR numbering:
/// fusing states never removes one.
pub proof fn lemma_lr1_conflict_is_lalr_conflict(dfa: &DetermenisticLR1Automaton, lr1: Seq<usize>, lalr: Seq<usize>)
    requires
        dfa.wf(),
        valid_ids(dfa, false, lr1),
        valid_ids(dfa, true, lalr),
        has_conflict(dfa, lr1),
    ensures
        has_conflict(dfa, lalr),
{
    let (key, a1, a2) = choose|key: (int, TagV), a1: ActionV, a2: ActionV|
        #[trigger] action_req(dfa, lr1, key, a1) && #[trigger] action_req(dfa, lr1, key, a2) && a1 != a2;
    let (k1, b1) = lemma_req_to_lalr(dfa, lr1, lalr, key, a1);
    let (k2, b2) = lemma_req_to_lalr(dfa, lr1, lalr, key, a2);
    assert(k1 == k2);
    if b1 == b2 {
        // Equal fused actions come from equal actions: a shift and a reduce
        // stay apart, reduces keep their rules, and one state has at most
        // one edge per terminal.
        if a1 is Shift && a2 is Shift {
            let (q, e) = choose|q: int, e: int| #[trigger] shift_req(dfa, lr1, q, e, key, a1);
            let (q2, e2) = choose|q: int, e: int| #[trigger] shift_req(dfa, lr1, q, e, key, a2);
            assert(lr1[q] == q && lr1[q2] == q2);
            assert(q == q2);
            let x1 = dfa.edges@[q]@[e].0;
            let x2 = dfa.edges@[q]@[e2].0;
            assert(dfa.grammar.terms@[x1->T_0 as int]@ == dfa.grammar.terms@[x2->T_0 as int]@);
            assert(dfa.grammar.sym_ok(x1) && dfa.grammar.sym_ok(x2));
            assert(x1 == x2);
            crate::dfa::lemma_dfa_deterministic(dfa, q, e, e2);
        }
    }
    assert(action_req(dfa, lalr, k1, b1) && action_req(dfa, lalr, k1, b2));
}

proof fn lemma_req_to_lalr(dfa: &DetermenisticLR1Automaton, lr1: Seq<usize>, lalr: Seq<usize>, key: (int, TagV), a: ActionV) -> (r: ((int, TagV), ActionV))
    requires
        dfa.wf(),
        valid_ids(dfa, false, lr1),
        valid_ids(dfa, true, lalr),
        action_req(dfa, lr1, key, a),
    ensures
        action_req(dfa, lalr, r.0, r.1),
        r.0.1 == key.1,
        0 <= key.0 < lr1.len() && r.0.0 == lalr[key.0] as int,
        a is Shift <==> r.1 is Shift,
        a is Accept <==> r.1 is Accept,
        a is Reduce ==> r.1 == a,
{
    if exists|q: int, e: int| #[trigger] shift_req(dfa, lr1, q, e, key, a) {
        let (q, e) = choose|q: int, e: int| #[trigger] shift_req(dfa, lr1, q, e, key, a);
        let q2 = dfa.edges@[q]@[e].1;
        let k = (lalr[q] as int, key.1);
        let b = ActionV::Shift(lalr[q2 as int] as int);
        assert(shift_req(dfa, lalr, q, e, k, b));
        (k, b)
    } else {
        let (q, i) = choose|q: int, i: int| #[trigger] reduce_req(dfa, lr1, q, i, key, a);
        let k = (lalr[q] as int, key.1);
        assert(reduce_req(dfa, lalr, q, i, k, a));
        (k, a)
    }
}

/// What LALR tables accept, LR(1) tables accept: when the LALR projection
/// of an automaton succeeds, the LR(1) projection asks for no two actions
/// in one entry, so it fails with no conflict.
pub proof fn lemma_lalr_success_implies_lr1(dfa: &DetermenisticLR1Automaton, lalr: Seq<usize>, t: crate::grammar::TablesV, lr1: Seq<usize>)
    requires
        dfa.wf(),
        valid_ids(dfa, true, lalr),
        tables_of(dfa, lalr, t),
        valid_ids(dfa, false, lr1),
    ensures
        !has_conflict(dfa, lr1),
{
    lemma_tables_no_conflict(dfa, lalr, t);
    if has_conflict(dfa, lr1) {
        lemma_lr1_conflict_is_lalr_conflict(dfa, lr1, lalr);
    }
}

/// In generated tables every reduce is by a rule of the grammar, so a tree
/// the driver builds with them (see `ParseTree::from_tables_and_tokens`)
/// labels each internal node with the left side of a grammar rule and gives
/// it as many children as that rule has symbols.
pub proof fn lemma_generated_reduces_are_rules(dfa: &DetermenisticLR1Automaton, ids: Seq<usize>, t: crate::grammar::TablesV, left: Seq<char>, n: nat)
    requires
        dfa.wf(),
        tables_of(dfa, ids, t),
        crate::driver::has_reduce(t, left, n),
    ensures
        exists|r: int| 0 <= r < dfa.grammar.rules@.len() && #[trigger] dfa.grammar.rule_view(r).left == left
            && dfa.grammar.rule_view(r).right.len() == n,
{
    let i = choose|i: int| 0 <= i < t.action.len() && (#[trigger] t.action[i]).1 is Reduce && t.action[i].1->Reduce_0.left == left
        && t.action[i].1->Reduce_0.right.len() == n;
    assert(action_req(dfa, ids, t.action[i].0, t.action[i].1));
    if exists|q: int, e: int| #[trigger] shift_req(dfa, ids, q, e, t.action[i].0, t.action[i].1) {
        let (q, e) = choose|q: int, e: int| #[trigger] shift_req(dfa, ids, q, e, t.action[i].0, t.action[i].1);
    } else {
        let (q, k) = choose|q: int, k: int| #[trigger] reduce_req(dfa, ids, q, k, t.action[i].0, t.action[i].1);
        let r = dfa.items@[k].rule as int;
        assert(crate::nfa::item_ok(&dfa.grammar, dfa.items@[k]));
        assert(dfa.grammar.rule_view(r).left == left);
        assert(dfa.grammar.rule_view(r).right.len() == n);
    }
}

pub proof fn lemma_same_kernel_symmetric(dfa: &DetermenisticLR1Automaton, a: int, b: int)
    ensures
        same_kernel(dfa, a, b) == same_kernel(dfa, b, a),
{
    lemma_same_kernel_equiv(dfa, a, b, a, b);
}

} // verus!
