//! Subset construction: the deterministic automaton over sets of LR(1) items.

use vstd::prelude::*;
use crate::first::{count_true, le, lemma_count_true_bound, lemma_count_true_set};
use crate::indexed::{IndexedGrammar, Sym};
use crate::text::{decimal, push_decimal, push_str};
use crate::driver::closed_graph;
use crate::nfa::{graph_header, push_close, push_item, push_sym, Label, LR1Item, NonDeterministicLR1Automaton, item_ok, nfa_step};

verus! {

/// Every set of items closed under the unlabelled edges of `nfa`.
pub open spec fn eps_closed(nfa: &NonDeterministicLR1Automaton, s: Seq<bool>) -> bool {
    &&& s.len() == nfa.items@.len()
    &&& forall|i: int, e: int| 0 <= i < s.len() && 0 <= e < nfa.edges@[i]@.len() && s[i] && (#[trigger] nfa.edges@[i]@[e]).1 == Label::Empty
        ==> s[nfa.edges@[i]@[e].0 as int]
}

/// `c` is the least set that holds `s` and is closed under unlabelled edges.
pub open spec fn is_closure(nfa: &NonDeterministicLR1Automaton, s: Seq<bool>, c: Seq<bool>) -> bool {
    &&& le(s, c)
    &&& eps_closed(nfa, c)
    &&& forall|t: Seq<bool>| #[trigger] eps_closed(nfa, t) && le(s, t) ==> le(c, t)
}

/// There is an edge labelled `x` from an item of `s` to item `k`.
pub open spec fn goto_has(nfa: &NonDeterministicLR1Automaton, s: Seq<bool>, x: Sym, k: int) -> bool {
    exists|i: int, e: int| 0 <= i < s.len() && 0 <= e < nfa.edges@[i]@.len() && s[i] && #[trigger] nfa.edges@[i]@[e] == (k as usize, Label::Sym(x))
}

/// The items reached from `s` over one edge labelled `x`.
pub open spec fn goto_set(nfa: &NonDeterministicLR1Automaton, s: Seq<bool>, x: Sym) -> Seq<bool> {
    Seq::new(nfa.items@.len(), |k: int| goto_has(nfa, s, x, k))
}

pub open spec fn any_set(s: Seq<bool>) -> bool {
    exists|k: int| 0 <= k < s.len() && s[k]
}

/// Index of a symbol among all symbols: terminals first.
pub open spec fn sym_index(g: &IndexedGrammar, x: Sym) -> int {
    match x {
        Sym::T(t) => t as int,
        Sym::N(n) => g.nt() + n,
    }
}

/// State `q` is the target of an edge out of an earlier state.
pub open spec fn entered(edges: Seq<Vec<(Sym, usize)>>, q: int) -> bool {
    exists|p: int, e: int| 0 <= p < q && p < edges.len() && 0 <= e < edges[p]@.len() && #[trigger] edges[p]@[e].1 == q
}

/// Some edge of `out` leads to state `q`.
pub open spec fn targets(out: Seq<(Sym, usize)>, q: int) -> bool {
    exists|e: int| 0 <= e < out.len() && (#[trigger] out[e]).1 == q
}

/// State `q` is reached from state 0 along `n` edges.
pub open spec fn reached(edges: Seq<Vec<(Sym, usize)>>, q: int, n: nat) -> bool
    decreases n,
{
    if n == 0 {
        q == 0
    } else {
        exists|p: int, e: int| 0 <= p < edges.len() && 0 <= e < edges[p]@.len() && #[trigger] edges[p]@[e].1 == q && reached(edges, p, (n - 1) as nat)
    }
}

/// Every state of a subset construction is reached from the start.
pub proof fn lemma_states_reachable(dfa: &DetermenisticLR1Automaton, nfa: &NonDeterministicLR1Automaton, q: int)
    requires
        dfa.built_from(nfa),
        0 <= q < dfa.states@.len(),
    ensures
        exists|n: nat| reached(dfa.edges@, q, n),
    decreases q,
{
    if q == 0 {
        assert(reached(dfa.edges@, 0, 0));
    } else {
        assert(entered(dfa.edges@, q));
        let (p, e) = choose|p: int, e: int| 0 <= p < q && p < dfa.edges@.len() && 0 <= e < dfa.edges@[p]@.len() && #[trigger] dfa.edges@[p]@[e].1 == q;
        lemma_states_reachable(dfa, nfa, p);
        let n = choose|n: nat| reached(dfa.edges@, p, n);
        assert(reached(dfa.edges@, q, n + 1));
    }
}

/// Sets of items and the edges between them, each labelled by a symbol.
pub struct DetermenisticLR1Automaton {
    pub grammar: IndexedGrammar,
    pub items: Vec<LR1Item>,
    pub states: Vec<Vec<bool>>,
    pub edges: Vec<Vec<(Sym, usize)>>,
    pub start: usize,
}

impl DetermenisticLR1Automaton {
    pub open spec fn state(&self, q: int) -> Seq<bool> {
        self.states@[q]@
    }

    /// Valid items, one flag per item in each state, edges between states,
    /// and at most one edge per symbol out of each state.
    pub open spec fn wf(&self) -> bool {
        &&& self.grammar.wf()
        &&& forall|i: int| 0 <= i < self.items@.len() ==> item_ok(&self.grammar, #[trigger] self.items@[i])
        &&& self.edges@.len() == self.states@.len()
        &&& self.start < self.states@.len()
        &&& forall|q: int| 0 <= q < self.states@.len() ==> (#[trigger] self.states@[q])@.len() == self.items@.len()
        &&& forall|q: int, e: int| 0 <= q < self.edges@.len() && 0 <= e < self.edges@[q]@.len() ==> (#[trigger] self.edges@[q]@[e]).1 < self.states@.len()
        &&& forall|q: int, e: int| 0 <= q < self.edges@.len() && 0 <= e < self.edges@[q]@.len() ==> self.grammar.sym_ok((#[trigger] self.edges@[q]@[e]).0)
        &&& forall|q: int, e1: int, e2: int| 0 <= q < self.edges@.len() && 0 <= e1 < e2 < self.edges@[q]@.len()
            ==> (#[trigger] self.edges@[q]@[e1]).0 != (#[trigger] self.edges@[q]@[e2]).0
    }

    /// The subset construction over `nfa`: the start state is the closure of
    /// the start item, the edge labelled `x` out of a state leads to the
    /// closure of what its items reach over `x`, and there is such an edge
    /// exactly when they reach something.
    pub open spec fn built_from(&self, nfa: &NonDeterministicLR1Automaton) -> bool {
        &&& self.items@ == nfa.items@
        &&& is_closure(nfa, Seq::new(nfa.items@.len(), |k: int| k == nfa.start), self.state(self.start as int))
        &&& forall|q: int, e: int| 0 <= q < self.edges@.len() && 0 <= e < self.edges@[q]@.len() ==> {
            let (x, q2) = #[trigger] self.edges@[q]@[e];
            &&& any_set(goto_set(nfa, self.state(q), x))
            &&& is_closure(nfa, goto_set(nfa, self.state(q), x), self.state(q2 as int))
        }
        &&& forall|q: int, x: Sym| 0 <= q < self.states@.len() && #[trigger] any_set(goto_set(nfa, self.state(q), x))
            ==> exists|e: int| 0 <= e < self.edges@[q]@.len() && (#[trigger] self.edges@[q]@[e]).0 == x
        &&& forall|q1: int, q2: int| 0 <= q1 < q2 < self.states@.len() ==> self.state(q1) != self.state(q2)
        &&& self.start == 0
        &&& forall|q: int| 0 < q < self.states@.len() ==> #[trigger] entered(self.edges@, q)
    }
}

/// A state has at most one successor per symbol.
pub proof fn lemma_dfa_deterministic(dfa: &DetermenisticLR1Automaton, q: int, e1: int, e2: int)
    requires
        dfa.wf(),
        0 <= q < dfa.edges@.len(),
        0 <= e1 < dfa.edges@[q]@.len(),
        0 <= e2 < dfa.edges@[q]@.len(),
        dfa.edges@[q]@[e1].0 == dfa.edges@[q]@[e2].0,
    ensures
        dfa.edges@[q]@[e1].1 == dfa.edges@[q]@[e2].1,
{
    if e1 < e2 {
        assert(dfa.edges@[q]@[e1].0 != dfa.edges@[q]@[e2].0);
    } else if e2 < e1 {
        assert(dfa.edges@[q]@[e2].0 != dfa.edges@[q]@[e1].0);
    }
}

/// The least set that holds `init` and is closed under unlabelled edges.
pub fn epsilon_closure(nfa: &NonDeterministicLR1Automaton, init: &Vec<bool>) -> (r: Vec<bool>)
    requires
        nfa.wf(),
        init@.len() == nfa.items@.len(),
    ensures
        is_closure(nfa, init@, r@),
{
    let n = nfa.items.len();
    let mut r: Vec<bool> = init.clone();
    assert(r@ =~= init@) by {
        assert forall|i: int| 0 <= i < n implies r@[i] == init@[i] by {
            assert(cloned::<bool>(init@[i], r@[i]));
        }
    }
    let mut changed = true;
    while changed
        invariant
            nfa.wf(),
            n == nfa.items@.len(),
            r@.len() == n,
            le(init@, r@),
            forall|t: Seq<bool>| #[trigger] eps_closed(nfa, t) && le(init@, t) ==> le(r@, t),
            !changed ==> eps_closed(nfa, r@),
        decreases n - count_true(r@) + if changed { 1int } else { 0int },
    {
        proof {
            lemma_count_true_bound(r@);
        }
        let ghost start_count = count_true(r@);
        changed = false;
        let mut i: usize = 0;
        while i < n
            invariant
                nfa.wf(),
                n == nfa.items@.len(),
                r@.len() == n,
                i <= n,
                le(init@, r@),
                forall|t: Seq<bool>| #[trigger] eps_closed(nfa, t) && le(init@, t) ==> le(r@, t),
                changed ==> count_true(r@) > start_count,
                !changed ==> count_true(r@) == start_count,
                !changed ==> forall|a: int, e: int| 0 <= a < i && 0 <= e < nfa.edges@[a]@.len() && r@[a] && (#[trigger] nfa.edges@[a]@[e]).1 == Label::Empty
                    ==> r@[nfa.edges@[a]@[e].0 as int],
            decreases n - i,
        {
            if r[i] {
                let out = &nfa.edges[i];
                let mut e: usize = 0;
                while e < out.len()
                    invariant
                        nfa.wf(),
                        n == nfa.items@.len(),
                        i < n,
                        out == nfa.edges@[i as int],
                        r@.len() == n,
                        r@[i as int],
                        e <= out@.len(),
                        le(init@, r@),
                        forall|t: Seq<bool>| #[trigger] eps_closed(nfa, t) && le(init@, t) ==> le(r@, t),
                        changed ==> count_true(r@) > start_count,
                        !changed ==> count_true(r@) == start_count,
                        !changed ==> forall|a: int, e: int| 0 <= a < i && 0 <= e < nfa.edges@[a]@.len() && r@[a] && (#[trigger] nfa.edges@[a]@[e]).1 == Label::Empty
                            ==> r@[nfa.edges@[a]@[e].0 as int],
                        !changed ==> forall|f: int| 0 <= f < e && (#[trigger] out@[f]).1 == Label::Empty ==> r@[out@[f].0 as int],
                    decreases out.len() - e,
                {
                    let (k, lab) = out[e];
                    assert(k < n);
                    if lab == Label::Empty && !r[k] {
                        assert forall|t: Seq<bool>| #[trigger] eps_closed(nfa, t) && le(init@, t) implies le(r@.update(k as int, true), t) by {
                            assert(le(r@, t));
                            assert(nfa.edges@[i as int]@[e as int] == out@[e as int]);
                        }
                        proof {
                            lemma_count_true_set(r@, k as int);
                        }
                        r.set(k, true);
                        changed = true;
                    }
                    e += 1;
                }
            }
            i += 1;
        }
        proof {
            lemma_count_true_bound(r@);
        }
    }
    r
}

/// The items reached from the items of `s` over one edge labelled `x`.
pub fn goto_items(nfa: &NonDeterministicLR1Automaton, s: &Vec<bool>, x: Sym) -> (r: Vec<bool>)
    requires
        nfa.wf(),
        s@.len() == nfa.items@.len(),
    ensures
        r@ == goto_set(nfa, s@, x),
{
    let n = nfa.items.len();
    let mut r: Vec<bool> = Vec::new();
    let mut k: usize = 0;
    while k < n
        invariant
            k <= n,
            r@.len() == k,
            forall|j: int| 0 <= j < k ==> !r@[j],
        decreases n - k,
    {
        r.push(false);
        k += 1;
    }
    let mut i: usize = 0;
    while i < n
        invariant
            nfa.wf(),
            n == nfa.items@.len(),
            s@.len() == n,
            i <= n,
            r@.len() == n,
            forall|k: int| 0 <= k < n ==> (#[trigger] r@[k] <==> exists|a: int, e: int| 0 <= a < i && 0 <= e < nfa.edges@[a]@.len() && s@[a] && #[trigger] nfa.edges@[a]@[e] == (k as usize, Label::Sym(x))),
        decreases n - i,
    {
        if s[i] {
            let out = &nfa.edges[i];
            let mut e: usize = 0;
            while e < out.len()
                invariant
                    nfa.wf(),
                    n == nfa.items@.len(),
                    s@.len() == n,
                    i < n,
                    s@[i as int],
                    out == nfa.edges@[i as int],
                    e <= out@.len(),
                    r@.len() == n,
                    forall|k: int| 0 <= k < n ==> (#[trigger] r@[k] <==> (exists|a: int, f: int| 0 <= a < i && 0 <= f < nfa.edges@[a]@.len() && s@[a] && #[trigger] nfa.edges@[a]@[f] == (k as usize, Label::Sym(x)))
                        || exists|f: int| 0 <= f < e && #[trigger] out@[f] == (k as usize, Label::Sym(x))),
                decreases out.len() - e,
            {
                let (k, lab) = out[e];
                assert(k < n);
                let ghost before = r@;
                if lab == Label::Sym(x) {
                    r.set(k, true);
                }
                assert forall|j: int| 0 <= j < n implies (#[trigger] r@[j] <==> (exists|a: int, f: int| 0 <= a < i && 0 <= f < nfa.edges@[a]@.len() && s@[a] && #[trigger] nfa.edges@[a]@[f] == (j as usize, Label::Sym(x)))
                    || exists|f: int| 0 <= f < e + 1 && #[trigger] out@[f] == (j as usize, Label::Sym(x))) by {
                    if j == k && lab == Label::Sym(x) {
                        assert(out@[e as int] == (j as usize, Label::Sym(x)));
                    }
                    if exists|f: int| 0 <= f < e + 1 && #[trigger] out@[f] == (j as usize, Label::Sym(x)) {
                        let f = choose|f: int| 0 <= f < e + 1 && #[trigger] out@[f] == (j as usize, Label::Sym(x));
                        if f < e {
                            assert(before[j]);
                        }
                    }
                }
                e += 1;
            }
            assert forall|k: int| 0 <= k < n implies (#[trigger] r@[k] <==> exists|a: int, e: int| 0 <= a < i + 1 && 0 <= e < nfa.edges@[a]@.len() && s@[a] && #[trigger] nfa.edges@[a]@[e] == (k as usize, Label::Sym(x))) by {
                if exists|f: int| 0 <= f < out@.len() && #[trigger] out@[f] == (k as usize, Label::Sym(x)) {
                    let f = choose|f: int| 0 <= f < out@.len() && #[trigger] out@[f] == (k as usize, Label::Sym(x));
                    assert(nfa.edges@[i as int]@[f] == (k as usize, Label::Sym(x)));
                }
                if exists|a: int, e: int| 0 <= a < i + 1 && 0 <= e < nfa.edges@[a]@.len() && s@[a] && #[trigger] nfa.edges@[a]@[e] == (k as usize, Label::Sym(x)) {
                    let (a, f) = choose|a: int, e: int| 0 <= a < i + 1 && 0 <= e < nfa.edges@[a]@.len() && s@[a] && #[trigger] nfa.edges@[a]@[e] == (k as usize, Label::Sym(x));
                    if a == i {
                        assert(out@[f] == (k as usize, Label::Sym(x)));
                    }
                }
            }
        } else {
            assert forall|k: int| 0 <= k < n implies (#[trigger] r@[k] <==> exists|a: int, e: int| 0 <= a < i + 1 && 0 <= e < nfa.edges@[a]@.len() && s@[a] && #[trigger] nfa.edges@[a]@[e] == (k as usize, Label::Sym(x))) by {
                if exists|a: int, e: int| 0 <= a < i + 1 && 0 <= e < nfa.edges@[a]@.len() && s@[a] && #[trigger] nfa.edges@[a]@[e] == (k as usize, Label::Sym(x)) {
                    let (a, f) = choose|a: int, e: int| 0 <= a < i + 1 && 0 <= e < nfa.edges@[a]@.len() && s@[a] && #[trigger] nfa.edges@[a]@[e] == (k as usize, Label::Sym(x));
                    assert(a != i);
                }
            }
        }
        i += 1;
    }
    assert(r@ =~= goto_set(nfa, s@, x));
    r
}

/// All flag sequences of length `n`.
pub open spec fn bool_seqs(n: nat) -> Set<Seq<bool>> {
    Set::new(|s: Seq<bool>| s.len() == n)
}

proof fn lemma_bool_seqs_finite(n: nat)
    ensures
        bool_seqs(n).finite(),
    decreases n,
{
    if n == 0 {
        assert(bool_seqs(0) =~= Set::empty().insert(Seq::<bool>::empty())) by {
            assert forall|s: Seq<bool>| #[trigger] bool_seqs(0).contains(s) implies s == Seq::<bool>::empty() by {
                assert(s =~= Seq::<bool>::empty());
            }
        }
    } else {
        lemma_bool_seqs_finite((n - 1) as nat);
        let prev = bool_seqs((n - 1) as nat);
        let f = |s: Seq<bool>| s.push(false);
        let t = |s: Seq<bool>| s.push(true);
        prev.lemma_map_finite(f);
        prev.lemma_map_finite(t);
        assert(bool_seqs(n) =~= prev.map(f).union(prev.map(t))) by {
            assert forall|s: Seq<bool>| #[trigger] bool_seqs(n).contains(s) implies prev.map(f).union(prev.map(t)).contains(s) by {
                let d = s.drop_last();
                assert(prev.contains(d));
                if s.last() {
                    assert(s =~= t(d));
                } else {
                    assert(s =~= f(d));
                }
            }
        }
    }
}

proof fn lemma_states_bound(states: Seq<Seq<bool>>, n: nat)
    requires
        forall|q: int| 0 <= q < states.len() ==> (#[trigger] states[q]).len() == n,
        forall|q1: int, q2: int| 0 <= q1 < q2 < states.len() ==> states[q1] != states[q2],
    ensures
        states.len() <= bool_seqs(n).len(),
        bool_seqs(n).finite(),
{
    lemma_bool_seqs_finite(n);
    assert(states.no_duplicates());
    states.unique_seq_to_set();
    assert(states.to_set().subset_of(bool_seqs(n)));
    vstd::set_lib::lemma_len_subset(states.to_set(), bool_seqs(n));
}

fn same_flags(a: &Vec<bool>, b: &Vec<bool>) -> (r: bool)
    ensures
        r == (a@ == b@),
{
    if a.len() != b.len() {
        return false;
    }
    let mut i: usize = 0;
    while i < a.len()
        invariant
            a@.len() == b@.len(),
            i <= a@.len(),
            forall|j: int| 0 <= j < i ==> a@[j] == b@[j],
        decreases a.len() - i,
    {
        if a[i] != b[i] {
            return false;
        }
        i += 1;
    }
    assert(a@ =~= b@);
    true
}

fn any_flag(a: &Vec<bool>) -> (r: bool)
    ensures
        r == any_set(a@),
{
    let mut i: usize = 0;
    while i < a.len()
        invariant
            i <= a@.len(),
            forall|j: int| 0 <= j < i ==> !a@[j],
        decreases a.len() - i,
    {
        if a[i] {
            return true;
        }
        i += 1;
    }
    false
}

proof fn lemma_goto_sym_ok(nfa: &NonDeterministicLR1Automaton, s: Seq<bool>, x: Sym)
    requires
        nfa.wf(),
        s.len() == nfa.items@.len(),
        any_set(goto_set(nfa, s, x)),
    ensures
        nfa.grammar.sym_ok(x),
{
    let k = choose|k: int| 0 <= k < goto_set(nfa, s, x).len() && goto_set(nfa, s, x)[k];
    assert(goto_has(nfa, s, x, k));
    let (i, e) = choose|i: int, e: int| 0 <= i < s.len() && 0 <= e < nfa.edges@[i]@.len() && s[i] && #[trigger] nfa.edges@[i]@[e] == (k as usize, Label::Sym(x));
    let it = nfa.items@[i];
    let ed = nfa.edges@[i]@[e];
    assert(ed.0 < nfa.items@.len() && nfa_step(&nfa.grammar, &nfa.sets, nfa.items@[i], ed.1, nfa.items@[ed.0 as int]));
    assert(ed.1 == Label::Sym(x));
    assert(item_ok(&nfa.grammar, it));
    assert(nfa.grammar.sym_ok(nfa.grammar.rhs(it.rule as int)[it.position as int]));
}

fn copy_items(v: &Vec<LR1Item>) -> (r: Vec<LR1Item>)
    ensures
        r@ == v@,
{
    let mut r: Vec<LR1Item> = Vec::new();
    let mut i: usize = 0;
    while i < v.len()
        invariant
            i <= v@.len(),
            r@ == v@.subrange(0, i as int),
        decreases v.len() - i,
    {
        r.push(v[i]);
        i += 1;
        assert(r@ =~= v@.subrange(0, i as int));
    }
    assert(v@.subrange(0, v@.len() as int) =~= v@);
    r
}

fn find_state(states: &Vec<Vec<bool>>, c: &Vec<bool>) -> (r: Option<usize>)
    ensures
        match r {
            Some(q) => q < states@.len() && states@[q as int]@ == c@,
            None => forall|q: int| 0 <= q < states@.len() ==> (#[trigger] states@[q])@ != c@,
        },
{
    let mut q: usize = 0;
    while q < states.len()
        invariant
            q <= states@.len(),
            forall|j: int| 0 <= j < q ==> (#[trigger] states@[j])@ != c@,
        decreases states.len() - q,
    {
        if same_flags(&states[q], c) {
            return Some(q);
        }
        q += 1;
    }
    None
}

impl DetermenisticLR1Automaton {
    /// Subset construction from the start item of `automaton`.
    #[verifier::rlimit(40)]
    pub fn from_non_deterministic(automaton: &NonDeterministicLR1Automaton) -> (r: DetermenisticLR1Automaton)
        requires
            automaton.wf(),
        ensures
            r.wf(),
            r.built_from(automaton),
            r.grammar.same_as(&automaton.grammar),
    {
        let nfa = automaton;
        let n = nfa.items.len();
        let g = &nfa.grammar;
        let nt = g.terms.len();
        let nsym = nt + g.nterms.len();
        let mut init: Vec<bool> = Vec::new();
        let mut k: usize = 0;
        while k < n
            invariant
                k <= n,
                init@.len() == k,
                forall|j: int| 0 <= j < k ==> init@[j] == (j == nfa.start),
            decreases n - k,
        {
            init.push(k == nfa.start);
            k += 1;
        }
        assert(init@ =~= Seq::new(nfa.items@.len(), |k: int| k == nfa.start));
        let start_state = epsilon_closure(nfa, &init);
        let mut states: Vec<Vec<bool>> = vec![start_state];
        let mut edges: Vec<Vec<(Sym, usize)>> = Vec::new();
        let ghost bound = bool_seqs(n as nat).len();
        let mut p: usize = 0;
        while p < states.len()
            invariant
                nfa.wf(),
                g == &nfa.grammar,
                n == nfa.items@.len(),
                nt == g.nt(),
                nsym == g.nt() + g.nn(),
                bound == bool_seqs(n as nat).len(),
                states@.len() > 0,
                is_closure(nfa, Seq::new(nfa.items@.len(), |k: int| k == nfa.start), states@[0]@),
                forall|q: int| 0 <= q < states@.len() ==> (#[trigger] states@[q])@.len() == n,
                forall|q1: int, q2: int| 0 <= q1 < q2 < states@.len() ==> states@[q1]@ != states@[q2]@,
                edges@.len() == p,
                p <= states@.len(),
                forall|q: int| 0 < q < states@.len() ==> #[trigger] entered(edges@, q),
                forall|q: int, e: int| 0 <= q < p && 0 <= e < edges@[q]@.len() ==> {
                    let (x, q2) = #[trigger] edges@[q]@[e];
                    &&& q2 < states@.len()
                    &&& g.sym_ok(x)
                    &&& any_set(goto_set(nfa, states@[q]@, x))
                    &&& is_closure(nfa, goto_set(nfa, states@[q]@, x), states@[q2 as int]@)
                },
                forall|q: int, e1: int, e2: int| 0 <= q < p && 0 <= e1 < e2 < edges@[q]@.len()
                    ==> (#[trigger] edges@[q]@[e1]).0 != (#[trigger] edges@[q]@[e2]).0,
                forall|q: int, x: Sym| 0 <= q < p && #[trigger] any_set(goto_set(nfa, states@[q]@, x))
                    ==> exists|e: int| 0 <= e < edges@[q]@.len() && (#[trigger] edges@[q]@[e]).0 == x,
            decreases bound - states@.len(), states@.len() - p,
        {
            proof {
                lemma_states_bound(states@.map_values(|v: Vec<bool>| v@), n as nat);
            }
            let ghost states0 = states@;
            assert(p < states0.len());
            let mut out: Vec<(Sym, usize)> = Vec::new();
            let mut si: usize = 0;
            while si < nsym
                invariant
                    nfa.wf(),
                    g == &nfa.grammar,
                    n == nfa.items@.len(),
                    nt == g.nt(),
                    nsym == g.nt() + g.nn(),
                    bound == bool_seqs(n as nat).len(),
                    bool_seqs(n as nat).finite(),
                    si <= nsym,
                    p < states0.len(),
                    states@.len() >= states0.len(),
                    forall|q: int| 0 <= q < states0.len() ==> states@[q] == states0[q],
                    edges@.len() == p,
                    forall|q: int| 0 < q < states0.len() ==> #[trigger] entered(edges@, q),
                    forall|q: int| states0.len() <= q < states@.len() ==> #[trigger] targets(out@, q),
                    states@.len() <= bound,
                    forall|q: int| 0 <= q < states@.len() ==> (#[trigger] states@[q])@.len() == n,
                    forall|q1: int, q2: int| 0 <= q1 < q2 < states@.len() ==> states@[q1]@ != states@[q2]@,
                    forall|e: int| 0 <= e < out@.len() ==> {
                        let (x, q2) = #[trigger] out@[e];
                        &&& q2 < states@.len()
                        &&& g.sym_ok(x)
                        &&& sym_index(g, x) < si
                        &&& any_set(goto_set(nfa, states@[p as int]@, x))
                        &&& is_closure(nfa, goto_set(nfa, states@[p as int]@, x), states@[q2 as int]@)
                    },
                    forall|e1: int, e2: int| 0 <= e1 < e2 < out@.len() ==> (#[trigger] out@[e1]).0 != (#[trigger] out@[e2]).0,
                    forall|x: Sym| g.sym_ok(x) && sym_index(g, x) < si && #[trigger] any_set(goto_set(nfa, states@[p as int]@, x))
                        ==> exists|e: int| 0 <= e < out@.len() && (#[trigger] out@[e]).0 == x,
                decreases nsym - si,
            {
                let x = if si < nt { Sym::T(si) } else { Sym::N(si - nt) };
                assert(g.sym_ok(x) && sym_index(g, x) == si);
                let t = goto_items(nfa, &states[p], x);
                if any_flag(&t) {
                    let c = epsilon_closure(nfa, &t);
                    let ghost states1 = states@;
                    let q2 = match find_state(&states, &c) {
                        Some(q) => q,
                        None => {
                            proof {
                                let ext = states@.map_values(|v: Vec<bool>| v@).push(c@);
                                assert forall|q1: int, q2: int| 0 <= q1 < q2 < ext.len() implies ext[q1] != ext[q2] by {
                                    if q2 == ext.len() - 1 {
                                        assert(states@[q1]@ != c@);
                                    }
                                }
                                lemma_states_bound(ext, n as nat);
                            }
                            states.push(c);
                            states.len() - 1
                        },
                    };
                    let ghost out0 = out@;
                    assert(any_set(goto_set(nfa, states@[p as int]@, x))) by {
                        assert(states@[p as int] == states0[p as int]);
                    }
                    out.push((x, q2));
                    proof {
                        assert forall|e1: int, e2: int| 0 <= e1 < e2 < out@.len() implies (#[trigger] out@[e1]).0 != (#[trigger] out@[e2]).0 by {
                            if e2 == out@.len() - 1 {
                                assert(sym_index(g, out0[e1].0) < si);
                            }
                        }
                        assert forall|e: int| 0 <= e < out@.len() implies {
                            let (y, q3) = #[trigger] out@[e];
                            &&& q3 < states@.len()
                            &&& g.sym_ok(y)
                            &&& sym_index(g, y) < si + 1
                            &&& any_set(goto_set(nfa, states@[p as int]@, y))
                            &&& is_closure(nfa, goto_set(nfa, states@[p as int]@, y), states@[q3 as int]@)
                        } by {
                            if e < out0.len() {
                                assert(out@[e] == out0[e]);
                                assert(states@[out0[e].1 as int] == states1[out0[e].1 as int]);
                            }
                        }
                        assert forall|q: int| states0.len() <= q < states@.len() implies #[trigger] targets(out@, q) by {
                            if q < states1.len() {
                                assert(targets(out0, q));
                                let e = choose|e: int| 0 <= e < out0.len() && (#[trigger] out0[e]).1 == q;
                                assert(out@[e] == out0[e]);
                            } else {
                                assert(out@[out0.len() as int].1 == q);
                            }
                        }
                        assert forall|y: Sym| g.sym_ok(y) && sym_index(g, y) < si + 1 && #[trigger] any_set(goto_set(nfa, states@[p as int]@, y))
                            implies exists|e: int| 0 <= e < out@.len() && (#[trigger] out@[e]).0 == y by {
                            if sym_index(g, y) < si {
                                let e = choose|e: int| 0 <= e < out0.len() && (#[trigger] out0[e]).0 == y;
                                assert(out@[e] == out0[e]);
                            } else {
                                assert(y == x);
                                assert(out@[out0.len() as int].0 == y);
                            }
                        }
                    }
                } else {
                    proof {
                        assert forall|y: Sym| g.sym_ok(y) && sym_index(g, y) < si + 1 && #[trigger] any_set(goto_set(nfa, states@[p as int]@, y))
                            implies exists|e: int| 0 <= e < out@.len() && (#[trigger] out@[e]).0 == y by {
                            if sym_index(g, y) == si {
                                assert(y == x);
                            }
                        }
                    }
                }
                si += 1;
            }
            let ghost out_g = out@;
            let ghost edges0 = edges@;
            edges.push(out);
            proof {
                assert forall|q: int| 0 < q < states@.len() implies #[trigger] entered(edges@, q) by {
                    if q < states0.len() {
                        assert(entered(edges0, q));
                        let (p2, e2) = choose|p2: int, e2: int| 0 <= p2 < q && p2 < edges0.len() && 0 <= e2 < edges0[p2]@.len() && #[trigger] edges0[p2]@[e2].1 == q;
                        assert(edges@[p2] == edges0[p2]);
                    } else {
                        assert(targets(out_g, q));
                        let e2 = choose|e2: int| 0 <= e2 < out_g.len() && (#[trigger] out_g[e2]).1 == q;
                        assert(edges@[p as int]@ == out_g);
                        assert(edges@[p as int]@[e2].1 == q);
                    }
                }
                assert forall|q: int, x: Sym| 0 <= q < p + 1 && #[trigger] any_set(goto_set(nfa, states@[q]@, x))
                    implies exists|e: int| 0 <= e < edges@[q]@.len() && (#[trigger] edges@[q]@[e]).0 == x by {
                    lemma_goto_sym_ok(nfa, states@[q]@, x);
                    if q < p {
                        assert(states@[q] == states0[q]);
                        assert(edges@[q] == edges0[q]);
                        assert(any_set(goto_set(nfa, states0[q]@, x)));
                        let e = choose|e: int| 0 <= e < edges0[q]@.len() && (#[trigger] edges0[q]@[e]).0 == x;
                        assert(edges@[q]@[e].0 == x);
                    } else {
                        assert(edges@[q]@ == out_g);
                        assert(sym_index(g, x) < nsym);
                        let e = choose|e: int| 0 <= e < out_g.len() && (#[trigger] out_g[e]).0 == x;
                        assert(edges@[q]@[e].0 == x);
                    }
                }
                assert forall|q: int, e: int| 0 <= q < p + 1 && 0 <= e < edges@[q]@.len() implies {
                    let (x, q2) = #[trigger] edges@[q]@[e];
                    &&& q2 < states@.len()
                    &&& g.sym_ok(x)
                    &&& any_set(goto_set(nfa, states@[q]@, x))
                    &&& is_closure(nfa, goto_set(nfa, states@[q]@, x), states@[q2 as int]@)
                } by {
                    if q < p {
                        assert(states@[q] == states0[q]);
                        assert(states@[edges@[q]@[e].1 as int] == states0[edges@[q]@[e].1 as int]);
                    }
                }
            }
            p += 1;
        }
        let r = DetermenisticLR1Automaton {
            grammar: g.duplicate(),
            items: copy_items(&nfa.items),
            states,
            edges,
            start: 0,
        };
        r
    }
}

impl DetermenisticLR1Automaton {
    /// The items of a state, one per line.
    pub fn node_to_graphviz(&self, q: usize) -> (r: String)
        requires
            self.wf(),
            q < self.states@.len(),
        ensures
            r@ == state_label(self, q as int, self.items@.len() as int),
    {
        let mut res = String::new();
        let mut i: usize = 0;
        while i < self.items.len()
            invariant
                self.wf(),
                q < self.states@.len(),
                i <= self.items@.len(),
                res@ == state_label(self, q as int, i as int),
            decreases self.items.len() - i,
        {
            if self.states[q][i] {
                push_item(&mut res, &self.grammar, self.items[i]);
                push_str(&mut res, "\\n");
            }
            assert(res@ =~= state_label(self, q as int, i + 1));
            i += 1;
        }
        res
    }

    /// The automaton in Graphviz's dot language; states with a reducible
    /// item in red.
    #[verifier::rlimit(50)]
    pub fn to_graphviz(&self) -> (r: String)
        requires
            self.wf(),
        ensures
            r@ == dfa_dot(self),
            closed_graph(r@),
    {
        let g = &self.grammar;
        let mut result = graph_header();
        let ghost head = result@;
        let mut q: usize = 0;
        while q < self.states.len()
            invariant
                self.wf(),
                g == &self.grammar,
                q <= self.states@.len(),
                result@ == head + state_lines(self, q as int),
            decreases self.states.len() - q,
        {
            let mut reducible = false;
            let mut i: usize = 0;
            while i < self.items.len()
                invariant
                    self.wf(),
                    g == &self.grammar,
                    q < self.states@.len(),
                    i <= self.items@.len(),
                    reducible == exists|j: int| 0 <= j < i && #[trigger] reducible_at(self, q as int, j),
                decreases self.items.len() - i,
            {
                let it = self.items[i];
                assert(item_ok(g, it));
                if self.states[q][i] && it.position == g.rules[it.rule].right.len() {
                    assert(reducible_at(self, q as int, i as int));
                    reducible = true;
                }
                i += 1;
            }
            push_decimal(&mut result, q as u64);
            push_str(&mut result, " [shape=\"rectangle\",label=\"");
            let label = self.node_to_graphviz(q);
            push_str(&mut result, label.as_str());
            if reducible {
                push_str(&mut result, "\", color=\"red\"]\n");
            } else {
                push_str(&mut result, "\", color=\"black\"]\n");
            }
            assert(result@ =~= head + state_lines(self, q + 1));
            q += 1;
        }
        push_str(&mut result, "fake [style=\"invis\"]\nfake -> ");
        push_decimal(&mut result, self.start as u64);
        push_str(&mut result, "\n");
        let ghost mid = result@;
        let mut q: usize = 0;
        while q < self.edges.len()
            invariant
                self.wf(),
                g == &self.grammar,
                q <= self.edges@.len(),
                result@ == mid + dfa_edge_lines(self, q as int),
            decreases self.edges.len() - q,
        {
            let out = &self.edges[q];
            let ghost before = result@;
            let mut e: usize = 0;
            while e < out.len()
                invariant
                    self.wf(),
                    g == &self.grammar,
                    q < self.edges@.len(),
                    out == self.edges@[q as int],
                    e <= out@.len(),
                    result@ == before + state_edge_lines(self, q as int, e as int),
                decreases out.len() - e,
            {
                let (x, q2) = out[e];
                push_decimal(&mut result, q as u64);
                push_str(&mut result, " -> ");
                push_decimal(&mut result, q2 as u64);
                push_str(&mut result, " [label=\"");
                push_sym(&mut result, g, x);
                push_str(&mut result, "\"]\n");
                assert(result@ =~= before + state_edge_lines(self, q as int, e + 1));
                e += 1;
            }
            assert(result@ =~= mid + dfa_edge_lines(self, q + 1));
            q += 1;
        }
        push_close(&mut result);
        assert(result@ =~= dfa_dot(self));
        result
    }
}

/// State `q` holds item `i`, and the item is reducible.
pub open spec fn reducible_at(dfa: &DetermenisticLR1Automaton, q: int, i: int) -> bool {
    0 <= i < dfa.items@.len() && dfa.state(q)[i] && dfa.items@[i].position == dfa.grammar.rhs(dfa.items@[i].rule as int).len()
}

/// The items of state `q` among the first `n`, each followed by `\n`.
pub open spec fn state_label(dfa: &DetermenisticLR1Automaton, q: int, n: int) -> Seq<char>
    decreases n,
{
    if n <= 0 {
        Seq::empty()
    } else {
        state_label(dfa, q, n - 1) + if dfa.state(q)[n - 1] {
            crate::nfa::item_text(&dfa.grammar, dfa.items@[n - 1]) + "\\n"@
        } else {
            Seq::empty()
        }
    }
}

/// The node lines of the first `n` states.
pub open spec fn state_lines(dfa: &DetermenisticLR1Automaton, n: int) -> Seq<char>
    decreases n,
{
    if n <= 0 {
        Seq::empty()
    } else {
        state_lines(dfa, n - 1) + decimal((n - 1) as nat) + " [shape=\"rectangle\",label=\""@
            + state_label(dfa, n - 1, dfa.items@.len() as int)
            + (if exists|j: int| 0 <= j < dfa.items@.len() && #[trigger] reducible_at(dfa, n - 1, j) {
                "\", color=\"red\"]\n"@
            } else {
                "\", color=\"black\"]\n"@
            })
    }
}

/// The lines of the first `m` edges out of state `q`.
pub open spec fn state_edge_lines(dfa: &DetermenisticLR1Automaton, q: int, m: int) -> Seq<char>
    decreases m,
{
    if m <= 0 {
        Seq::empty()
    } else {
        let (x, q2) = dfa.edges@[q]@[m - 1];
        state_edge_lines(dfa, q, m - 1) + decimal(q as nat) + " -> "@ + decimal(q2 as nat) + " [label=\""@
            + crate::nfa::sym_name(&dfa.grammar, x) + "\"]\n"@
    }
}

/// The edge lines of the first `n` states.
pub open spec fn dfa_edge_lines(dfa: &DetermenisticLR1Automaton, n: int) -> Seq<char>
    decreases n,
{
    if n <= 0 {
        Seq::empty()
    } else {
        dfa_edge_lines(dfa, n - 1) + state_edge_lines(dfa, n - 1, dfa.edges@[n - 1]@.len() as int)
    }
}

/// The automaton in dot: a node per state labelled by its items, an
/// invisible node pointing at the start state, and an edge per edge.
pub open spec fn dfa_dot(dfa: &DetermenisticLR1Automaton) -> Seq<char> {
    "digraph G {\nrankdir=\"LR\"\n"@ + state_lines(dfa, dfa.states@.len() as int) + "fake [style=\"invis\"]\nfake -> "@
        + decimal(dfa.start as nat) + "\n"@ + dfa_edge_lines(dfa, dfa.edges@.len() as int) + "}\n"@
}

} // verus!
