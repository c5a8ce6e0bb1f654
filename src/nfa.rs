//! The non-deterministic LR(1) item graph.

use vstd::prelude::*;
use crate::first::{
    FirstSets, calculate_first_sets, count_true2, lemma_count_true2_bound, lemma_count_true2_set,
    prefix_nullable, sym_nullable,
};
use crate::grammar::{Grammar, declared, root_name};
use crate::text::{decimal, push_decimal, push_str};
use crate::driver::closed_graph;
use crate::indexed::{IndexedGrammar, IRule, Sym, grammar_size, rules_size};

verus! {

/// A rule with a dot at `position` and a lookahead: terminal `lookup`, or
/// the end marker when `lookup` equals the number of terminals.
#[derive(Clone, Copy, PartialEq, Eq, Structural, Debug)]
pub struct LR1Item {
    pub rule: usize,
    pub position: usize,
    pub lookup: usize,
}

impl LR1Item {
    /// The dot stands at the end of the rule.
    pub fn is_finish(&self, g: &IndexedGrammar) -> (r: bool)
        requires
            g.wf(),
            item_ok(g, *self),
        ensures
            r == (self.position == g.rhs(self.rule as int).len()),
    {
        self.position == g.rules[self.rule].right.len()
    }
}

/// The label of an edge: a symbol, or no symbol at all.
#[derive(Clone, Copy, PartialEq, Eq, Structural, Debug)]
pub enum Label {
    Sym(Sym),
    Empty,
}

pub open spec fn item_ok(g: &IndexedGrammar, it: LR1Item) -> bool {
    &&& it.rule < g.rules@.len()
    &&& it.position <= g.rhs(it.rule as int).len()
    &&& it.lookup <= g.nt()
}

/// Lookahead `b` is what the symbol `s` can begin with.
pub open spec fn starts_with(first: Seq<Seq<bool>>, s: Sym, b: int) -> bool {
    match s {
        Sym::T(t) => b == t,
        Sym::N(c) => 0 <= b < first[c as int].len() && first[c as int][b],
    }
}

/// Lookahead `b` is what `beta` followed by `la` can begin with when the
/// first `j` symbols of `beta` vanish.
pub open spec fn lookahead_at(nullable: Seq<bool>, first: Seq<Seq<bool>>, beta: Seq<Sym>, la: int, b: int, j: int) -> bool {
    &&& 0 <= j <= beta.len()
    &&& prefix_nullable(nullable, beta, j)
    &&& if j < beta.len() { starts_with(first, beta[j], b) } else { b == la }
}

/// `b` is in FIRST(beta la).
pub open spec fn in_first_of_rest(nullable: Seq<bool>, first: Seq<Seq<bool>>, beta: Seq<Sym>, la: int, b: int) -> bool {
    exists|j: int| #[trigger] lookahead_at(nullable, first, beta, la, b, j)
}

/// An edge of the LR(1) item graph from `it` to `it2`.
pub open spec fn nfa_step(g: &IndexedGrammar, fs: &FirstSets, it: LR1Item, lab: Label, it2: LR1Item) -> bool {
    let rhs = g.rhs(it.rule as int);
    &&& it.position < rhs.len()
    &&& {
        ||| (lab == Label::Sym(rhs[it.position as int]) && it2 == LR1Item {
            rule: it.rule,
            position: (it.position + 1) as usize,
            lookup: it.lookup,
        })
        ||| (lab == Label::Empty && rhs[it.position as int] is N && it2.rule < g.rules@.len()
            && g.lhs(it2.rule as int) == rhs[it.position as int]->N_0 && it2.position == 0
            && it2.lookup <= g.nt()
            && in_first_of_rest(fs.nullable@, fs.first_view(), rhs.subrange(it.position + 1, rhs.len() as int), it.lookup as int, it2.lookup as int))
    }
}

/// The item graph of a grammar, grown from the start item
/// `ROOT -> . S, $` by reachability.
pub struct NonDeterministicLR1Automaton {
    pub grammar: IndexedGrammar,
    pub sets: FirstSets,
    pub items: Vec<LR1Item>,
    pub edges: Vec<Vec<(usize, Label)>>,
    pub start: usize,
}

impl NonDeterministicLR1Automaton {
    /// Items distinct and valid; every edge an edge of the item graph, and
    /// every edge of the item graph out of an item present.
    pub open spec fn wf(&self) -> bool {
        let g = &self.grammar;
        &&& g.wf()
        &&& self.sets.least(g)
        &&& self.sets.first@.len() == g.nn()
        &&& forall|a: int| 0 <= a < g.nn() ==> (#[trigger] self.sets.first@[a])@.len() == g.nt()
        &&& self.edges@.len() == self.items@.len()
        &&& self.start < self.items@.len()
        &&& self.items@[self.start as int] == (LR1Item { rule: g.root_rule, position: 0, lookup: g.nt() as usize })
        &&& forall|i: int| 0 <= i < self.items@.len() ==> item_ok(g, #[trigger] self.items@[i])
        &&& forall|i: int, j: int| 0 <= i < j < self.items@.len() ==> self.items@[i] != self.items@[j]
        &&& forall|i: int, e: int| 0 <= i < self.edges@.len() && 0 <= e < self.edges@[i]@.len() ==> {
            let (k, lab) = #[trigger] self.edges@[i]@[e];
            &&& k < self.items@.len()
            &&& nfa_step(g, &self.sets, self.items@[i], lab, self.items@[k as int])
        }
        &&& self.edges_complete()
    }

    /// Every edge of the item graph out of an item is present.
    #[verifier::opaque]
    pub open spec fn edges_complete(&self) -> bool {
        forall|i: int, lab: Label, it2: LR1Item| 0 <= i < self.items@.len() && #[trigger] nfa_step(&self.grammar, &self.sets, self.items@[i], lab, it2)
            ==> exists|e: int| 0 <= e < self.edges@[i]@.len() && #[trigger] self.edges@[i]@[e] == (
                self.edges@[i]@[e].0,
                lab,
            ) && self.items@[self.edges@[i]@[e].0 as int] == it2
    }
}

/// Item `i` is the target of an edge out of an earlier item.
pub open spec fn entered_item(edges: Seq<Vec<(usize, Label)>>, i: int) -> bool {
    exists|p: int, e: int| 0 <= p < i && p < edges.len() && 0 <= e < edges[p]@.len() && #[trigger] edges[p]@[e].0 == i
}

/// Some edge of `out` leads to item `i`.
pub open spec fn targets_item(out: Seq<(usize, Label)>, i: int) -> bool {
    exists|e: int| 0 <= e < out.len() && (#[trigger] out[e]).0 == i
}

/// Item `i` is reached from item 0 along `n` edges.
pub open spec fn item_reached(edges: Seq<Vec<(usize, Label)>>, i: int, n: nat) -> bool
    decreases n,
{
    if n == 0 {
        i == 0
    } else {
        exists|p: int, e: int| 0 <= p < edges.len() && 0 <= e < edges[p]@.len() && #[trigger] edges[p]@[e].0 == i && item_reached(edges, p, (n - 1) as nat)
    }
}

/// Every item of the graph is reached from the start item.
pub proof fn lemma_items_reachable(nfa: &NonDeterministicLR1Automaton, i: int)
    requires
        nfa.start == 0,
        forall|j: int| 0 < j < nfa.items@.len() ==> #[trigger] entered_item(nfa.edges@, j),
        0 <= i < nfa.items@.len(),
    ensures
        exists|n: nat| item_reached(nfa.edges@, i, n),
    decreases i,
{
    if i == 0 {
        assert(item_reached(nfa.edges@, 0, 0));
    } else {
        assert(entered_item(nfa.edges@, i));
        let (p, e) = choose|p: int, e: int| 0 <= p < i && p < nfa.edges@.len() && 0 <= e < nfa.edges@[p]@.len() && #[trigger] nfa.edges@[p]@[e].0 == i;
        lemma_items_reachable(nfa, p);
        let n = choose|n: nat| item_reached(nfa.edges@, p, n);
        assert(item_reached(nfa.edges@, i, n + 1));
    }
}

/// Items found so far, each with a slot in a table indexed by the position
/// of its dotted rule and by its lookahead.
struct Discovery {
    items: Vec<LR1Item>,
    base: Vec<usize>,
    slot: Vec<Vec<usize>>,
    seen: Vec<Vec<bool>>,
}

spec fn kid(base: Seq<usize>, it: LR1Item) -> int {
    base[it.rule as int] + it.position
}

impl Discovery {
    spec fn wf(&self, g: &IndexedGrammar) -> bool {
        let nr = g.rules@.len() as int;
        let w = g.nt() + 1;
        let kk = self.base@[nr];
        &&& self.base@.len() == nr + 1
        &&& self.base@[0] == 0
        &&& forall|r1: int, r2: int| 0 <= r1 < r2 <= nr ==> #[trigger] self.base@[r1] + g.rhs(r1).len() + 1 <= #[trigger] self.base@[r2]
        &&& self.slot@.len() == kk
        &&& self.seen@.len() == kk
        &&& forall|k: int| 0 <= k < kk ==> (#[trigger] self.slot@[k])@.len() == w
        &&& forall|k: int| 0 <= k < kk ==> (#[trigger] self.seen@[k])@.len() == w
        &&& forall|k: int, l: int| 0 <= k < kk && 0 <= l < w ==> (#[trigger] self.seen@[k]@[l] <==> self.slot@[k]@[l] > 0)
        &&& forall|k: int, l: int| 0 <= k < kk && 0 <= l < w && #[trigger] self.slot@[k]@[l] > 0 ==> {
            let i = self.slot@[k]@[l] - 1;
            &&& i < self.items@.len()
            &&& kid(self.base@, self.items@[i]) == k
            &&& self.items@[i].lookup == l
        }
        &&& forall|i: int| 0 <= i < self.items@.len() ==> item_ok(g, #[trigger] self.items@[i])
        &&& forall|i: int| 0 <= i < self.items@.len() ==> self.slot@[kid(self.base@, #[trigger] self.items@[i])]@[self.items@[i].lookup as int] == i + 1
        &&& self.items@.len() == count_true2(self.seen@.map_values(|row: Vec<bool>| row@))
        &&& kk * w < usize::MAX
    }

    spec fn bound(&self, g: &IndexedGrammar) -> int {
        self.base@[g.rules@.len() as int] * (g.nt() + 1)
    }

    proof fn lemma_kid(&self, g: &IndexedGrammar, it: LR1Item)
        requires
            self.wf(g),
            item_ok(g, it),
        ensures
            0 <= kid(self.base@, it) < self.base@[g.rules@.len() as int],
    {
        assert(self.base@[it.rule as int] + g.rhs(it.rule as int).len() + 1 <= self.base@[g.rules@.len() as int]);
        if it.rule > 0 {
            assert(self.base@[0] + g.rhs(0).len() + 1 <= self.base@[it.rule as int]);
        }
    }

    proof fn lemma_kid_injective(&self, g: &IndexedGrammar, a: LR1Item, b: LR1Item)
        requires
            self.wf(g),
            item_ok(g, a),
            item_ok(g, b),
            kid(self.base@, a) == kid(self.base@, b),
            a.lookup == b.lookup,
        ensures
            a == b,
    {
        if a.rule < b.rule {
            assert(self.base@[a.rule as int] + g.rhs(a.rule as int).len() + 1 <= self.base@[b.rule as int]);
        } else if b.rule < a.rule {
            assert(self.base@[b.rule as int] + g.rhs(b.rule as int).len() + 1 <= self.base@[a.rule as int]);
        }
    }

    proof fn lemma_distinct(&self, g: &IndexedGrammar)
        requires
            self.wf(g),
        ensures
            forall|i: int, j: int| 0 <= i < j < self.items@.len() ==> self.items@[i] != self.items@[j],
            self.items@.len() <= self.bound(g),
    {
        assert forall|i: int, j: int| 0 <= i < j < self.items@.len() implies self.items@[i] != self.items@[j] by {
            if self.items@[i] == self.items@[j] {
                assert(self.slot@[kid(self.base@, self.items@[i])]@[self.items@[i].lookup as int] == i + 1);
                assert(self.slot@[kid(self.base@, self.items@[j])]@[self.items@[j].lookup as int] == j + 1);
            }
        }
        lemma_count_true2_bound(self.seen@.map_values(|row: Vec<bool>| row@), g.nt() + 1);
    }

    /// Index of item `it`, which is added when it is new.
    fn find_or_add(&mut self, g: &IndexedGrammar, it: LR1Item) -> (r: usize)
        requires
            g.wf(),
            old(self).wf(g),
            item_ok(g, it),
        ensures
            final(self).wf(g),
            final(self).base@ == old(self).base@,
            r < final(self).items@.len(),
            final(self).items@[r as int] == it,
            final(self).items@.len() <= old(self).items@.len() + 1,
            final(self).items@.len() >= old(self).items@.len(),
            old(self).items@ == final(self).items@.subrange(0, old(self).items@.len() as int),
            final(self).items@.len() > old(self).items@.len() ==> r == old(self).items@.len(),
    {
        proof {
            self.lemma_kid(g, it);
        }
        let k = self.base[it.rule] + it.position;
        let s = self.slot[k][it.lookup];
        if s > 0 {
            proof {
                self.lemma_kid_injective(g, self.items@[s - 1], it);
            }
            assert(self.items@ == self.items@.subrange(0, self.items@.len() as int));
            return s - 1;
        }
        let ghost old_seen = self.seen@.map_values(|row: Vec<bool>| row@);
        proof {
            self.lemma_distinct(g);
            lemma_count_true2_set(old_seen, k as int, it.lookup as int);
            lemma_count_true2_bound(old_seen.update(k as int, old_seen[k as int].update(it.lookup as int, true)), g.nt() + 1);
        }
        let n = self.items.len();
        self.items.push(it);
        let mut row: Vec<usize> = Vec::new();
        std::mem::swap(&mut row, &mut self.slot[k]);
        row.set(it.lookup, n + 1);
        self.slot.set(k, row);
        let mut srow: Vec<bool> = Vec::new();
        std::mem::swap(&mut srow, &mut self.seen[k]);
        srow.set(it.lookup, true);
        self.seen.set(k, srow);
        assert(self.seen@.map_values(|row: Vec<bool>| row@) =~= old_seen.update(k as int, old_seen[k as int].update(it.lookup as int, true)));
        proof {
            assert forall|i: int| 0 <= i < self.items@.len() implies self.slot@[kid(self.base@, #[trigger] self.items@[i])]@[self.items@[i].lookup as int] == i + 1 by {
                if i < n {
                    if kid(self.base@, self.items@[i]) == k && self.items@[i].lookup == it.lookup {
                        self.lemma_kid_injective(g, self.items@[i], it);
                    }
                }
            }
        }
        n
    }
}

fn table_of<T: Copy>(rows: usize, width: usize, v: T) -> (r: Vec<Vec<T>>)
    ensures
        r@.len() == rows,
        forall|k: int| 0 <= k < rows ==> (#[trigger] r@[k])@.len() == width,
        forall|k: int, l: int| 0 <= k < rows && 0 <= l < width ==> #[trigger] r@[k]@[l] == v,
{
    let mut r: Vec<Vec<T>> = Vec::new();
    let mut k: usize = 0;
    while k < rows
        invariant
            k <= rows,
            r@.len() == k,
            forall|x: int| 0 <= x < k ==> (#[trigger] r@[x])@.len() == width,
            forall|x: int, l: int| 0 <= x < k && 0 <= l < width ==> #[trigger] r@[x]@[l] == v,
        decreases rows - k,
    {
        let mut row: Vec<T> = Vec::new();
        let mut l: usize = 0;
        while l < width
            invariant
                l <= width,
                row@.len() == l,
                forall|y: int| 0 <= y < l ==> #[trigger] row@[y] == v,
            decreases width - l,
        {
            row.push(v);
            l += 1;
        }
        r.push(row);
        k += 1;
    }
    r
}

proof fn lemma_rules_size_step(rules: Seq<IRule>, i: int)
    requires
        0 <= i < rules.len(),
    ensures
        rules_size(rules.subrange(0, i + 1)) == rules_size(rules.subrange(0, i)) + 1 + rules[i].right@.len(),
{
    assert(rules.subrange(0, i + 1).drop_last() =~= rules.subrange(0, i));
}

proof fn lemma_count_true2_zero(m: Seq<Seq<bool>>)
    requires
        forall|k: int, l: int| 0 <= k < m.len() && 0 <= l < m[k].len() ==> !#[trigger] m[k][l],
    ensures
        count_true2(m) == 0,
    decreases m.len(),
{
    if m.len() > 0 {
        lemma_count_true_zero(m.last());
        lemma_count_true2_zero(m.drop_last());
    }
}

proof fn lemma_count_true_zero(s: Seq<bool>)
    requires
        forall|l: int| 0 <= l < s.len() ==> !#[trigger] s[l],
    ensures
        crate::first::count_true(s) == 0,
    decreases s.len(),
{
    if s.len() > 0 {
        lemma_count_true_zero(s.drop_last());
    }
}

impl Discovery {
    fn new(g: &IndexedGrammar) -> (r: Discovery)
        requires
            g.wf(),
            g.size() * g.size() < usize::MAX,
            g.nn() + g.nt() <= g.size(),
        ensures
            r.wf(g),
            r.items@.len() == 0,
    {
        let nr = g.rules.len();
        let mut base: Vec<usize> = vec![0];
        let mut i: usize = 0;
        proof {
            assert(g.rules@.subrange(0, 0) =~= Seq::<IRule>::empty());
            lemma_rules_prefix(g.rules@, 0);
        }
        while i < nr
            invariant
                g.wf(),
                nr == g.rules@.len(),
                i <= nr,
                base@.len() == i + 1,
                base@[0] == 0,
                base@[i as int] == rules_size(g.rules@.subrange(0, i as int)),
                g.size() * g.size() < usize::MAX,
                forall|r1: int, r2: int| 0 <= r1 < r2 <= i ==> #[trigger] base@[r1] + g.rhs(r1).len() + 1 <= #[trigger] base@[r2],
            decreases nr - i,
        {
            proof {
                lemma_rules_size_step(g.rules@, i as int);
                lemma_rules_prefix(g.rules@, i as int + 1);
                assert(g.size() <= g.size() * g.size()) by (nonlinear_arith)
                    requires g.size() * g.size() < usize::MAX;
            }
            let next = base[i] + g.rules[i].right.len() + 1;
            base.push(next);
            i += 1;
        }
        assert(g.rules@.subrange(0, nr as int) =~= g.rules@);
        let kk = base[nr];
        let w = g.terms.len() + 1;
        assert(kk * w < usize::MAX) by (nonlinear_arith)
            requires kk == g.size(), w <= g.size(), g.size() * g.size() < usize::MAX;
        let slot = table_of(kk, w, 0usize);
        let seen = table_of(kk, w, false);
        proof {
            lemma_count_true2_zero(seen@.map_values(|row: Vec<bool>| row@));
        }
        Discovery { items: Vec::new(), base, slot, seen }
    }
}

proof fn lemma_rules_prefix(rules: Seq<IRule>, i: int)
    requires
        0 <= i <= rules.len(),
    ensures
        rules_size(rules.subrange(0, i)) <= rules_size(rules),
    decreases rules.len() - i,
{
    if i < rules.len() {
        lemma_rules_size_step(rules, i);
        lemma_rules_prefix(rules, i + 1);
    } else {
        assert(rules.subrange(0, i) =~= rules);
    }
}

/// The lookaheads `b` with `b` in FIRST(beta la), where `beta` is what
/// follows place `from` in rule `rule`: one flag per terminal, and one for
/// the end marker.
fn lookaheads(g: &IndexedGrammar, fs: &FirstSets, rule: usize, from: usize, la: usize) -> (r: Vec<bool>)
    requires
        g.wf(),
        fs.nullable@.len() == g.nn(),
        fs.first@.len() == g.nn(),
        forall|a: int| 0 <= a < g.nn() ==> (#[trigger] fs.first@[a])@.len() == g.nt(),
        rule < g.rules@.len(),
        from <= g.rhs(rule as int).len(),
        la <= g.nt(),
    ensures
        r@.len() == g.nt() + 1,
        forall|b: int| 0 <= b <= g.nt() ==> (#[trigger] r@[b] <==> in_first_of_rest(
            fs.nullable@,
            fs.first_view(),
            g.rhs(rule as int).subrange(from as int, g.rhs(rule as int).len() as int),
            la as int,
            b,
        )),
{
    let ghost rhs = g.rhs(rule as int);
    let ghost beta = rhs.subrange(from as int, rhs.len() as int);
    let ghost nullable = fs.nullable@;
    let ghost first = fs.first_view();
    let nt = g.terms.len();
    let right = &g.rules[rule].right;
    let mut r: Vec<bool> = Vec::new();
    let mut b: usize = 0;
    while b <= nt
        invariant
            nt == g.nt(),
            nt + 1 < usize::MAX,
            b <= nt + 1,
            r@.len() == b,
            forall|x: int| 0 <= x < b ==> !r@[x],
        decreases nt + 1 - b,
    {
        r.push(false);
        b += 1;
    }
    let mut k: usize = from;
    let mut go = true;
    while go && k < right.len()
        invariant
            g.wf(),
            rule < g.rules@.len(),
            right@ == rhs,
            rhs == g.rhs(rule as int),
            beta == rhs.subrange(from as int, rhs.len() as int),
            nullable == fs.nullable@,
            first == fs.first_view(),
            fs.nullable@.len() == g.nn(),
            fs.first@.len() == g.nn(),
            forall|a: int| 0 <= a < g.nn() ==> (#[trigger] fs.first@[a])@.len() == g.nt(),
            nt == g.nt(),
            from <= k <= rhs.len(),
            r@.len() == nt + 1,
            go ==> prefix_nullable(nullable, beta, k - from),
            !go ==> k > from && !sym_nullable(nullable, beta[k - from - 1]),
            forall|x: int| 0 <= x <= nt ==> (#[trigger] r@[x] <==> exists|j: int| 0 <= j < k - from && #[trigger] lookahead_at(nullable, first, beta, la as int, x, j)),
        decreases right.len() - k,
    {
        let ghost j0 = k - from;
        let ghost old_r = r@;
        assert(beta[j0] == rhs[k as int]);
        assert(g.sym_ok(g.rhs(rule as int)[k as int]));
        match right[k] {
            Sym::T(t) => {
                r.set(t, true);
                go = false;
                proof {
                    assert(lookahead_at(nullable, first, beta, la as int, t as int, j0));
                    assert forall|x: int| 0 <= x <= nt implies (#[trigger] r@[x] <==> exists|j: int| 0 <= j < k + 1 - from && #[trigger] lookahead_at(nullable, first, beta, la as int, x, j)) by {
                        if x != t {
                            if exists|j: int| 0 <= j < k + 1 - from && #[trigger] lookahead_at(nullable, first, beta, la as int, x, j) {
                                let j = choose|j: int| 0 <= j < k + 1 - from && #[trigger] lookahead_at(nullable, first, beta, la as int, x, j);
                                assert(j != j0);
                            }
                        }
                    }
                }
            },
            Sym::N(c) => {
                let mut x: usize = 0;
                while x < nt
                    invariant
                        c < g.nn(),
                        fs.first@.len() == g.nn(),
                        forall|a: int| 0 <= a < g.nn() ==> (#[trigger] fs.first@[a])@.len() == g.nt(),
                        first == fs.first_view(),
                        nt == g.nt(),
                        x <= nt,
                        r@.len() == nt + 1,
                        old_r.len() == nt + 1,
                        forall|y: int| 0 <= y < x ==> #[trigger] r@[y] == (old_r[y] || first[c as int][y]),
                        forall|y: int| x <= y <= nt ==> #[trigger] r@[y] == old_r[y],
                    decreases nt - x,
                {
                    assert(first[c as int] == fs.first@[c as int]@);
                    let ghost before = r@;
                    let f = fs.first[c][x];
                    assert(f == first[c as int][x as int]);
                    if f {
                        r.set(x, true);
                    }
                    assert(r@[x as int] == (old_r[x as int] || first[c as int][x as int]));
                    assert forall|y: int| 0 <= y < x + 1 implies #[trigger] r@[y] == (old_r[y] || first[c as int][y]) by {
                        if y < x {
                            assert(r@[y] == before[y]);
                        }
                    }
                    x += 1;
                }
                if !fs.nullable[c] {
                    go = false;
                }
                proof {
                    assert(first[c as int].len() == nt);
                    assert forall|y: int| 0 <= y <= nt implies (#[trigger] r@[y] <==> exists|j: int| 0 <= j < k + 1 - from && #[trigger] lookahead_at(nullable, first, beta, la as int, y, j)) by {
                        assert(old_r[y] <==> exists|j: int| 0 <= j < k - from && #[trigger] lookahead_at(nullable, first, beta, la as int, y, j));
                        if old_r[y] {
                            let j = choose|j: int| 0 <= j < k - from && #[trigger] lookahead_at(nullable, first, beta, la as int, y, j);
                            assert(0 <= j < k + 1 - from && lookahead_at(nullable, first, beta, la as int, y, j));
                        }
                        if y < nt && first[c as int][y] {
                            assert(lookahead_at(nullable, first, beta, la as int, y, j0));
                        }
                        if exists|j: int| 0 <= j < k + 1 - from && #[trigger] lookahead_at(nullable, first, beta, la as int, y, j) {
                            let j = choose|j: int| 0 <= j < k + 1 - from && #[trigger] lookahead_at(nullable, first, beta, la as int, y, j);
                            if j == j0 {
                                assert(y < nt && first[c as int][y]);
                            }
                        }
                    }
                }
            },
        }
        proof {
            if go {
                assert forall|j: int| 0 <= j < k + 1 - from implies #[trigger] sym_nullable(nullable, beta[j]) by {
                    if j < j0 {
                        assert(prefix_nullable(nullable, beta, j0));
                    }
                }
            }
        }
        k += 1;
    }
    if go {
        r.set(la, true);
    }
    proof {
        assert forall|x: int| 0 <= x <= nt implies (#[trigger] r@[x] <==> in_first_of_rest(nullable, first, beta, la as int, x)) by {
            if exists|j: int| #[trigger] lookahead_at(nullable, first, beta, la as int, x, j) {
                let j = choose|j: int| #[trigger] lookahead_at(nullable, first, beta, la as int, x, j);
                if !go && j >= k - from {
                    assert(sym_nullable(nullable, beta[k - from - 1]));
                }
                if go && j == beta.len() {
                    assert(x == la);
                }
            }
            if go && x == la {
                assert(lookahead_at(nullable, first, beta, la as int, x, beta.len() as int));
            }
        }
    }
    r
}

impl NonDeterministicLR1Automaton {
    /// The item graph of `grammar`, which must hold a rule for `ROOT`.
    pub fn from_grammar(grammar: &Grammar) -> (r: NonDeterministicLR1Automaton)
        requires
            declared(grammar@, root_name()),
            grammar_size(grammar@.rules) * grammar_size(grammar@.rules) < usize::MAX,
        ensures
            r.wf(),
            r.grammar.models(grammar@),
            r.grammar.names_of(grammar@),
            r.start == 0,
            forall|i: int| 0 < i < r.items@.len() ==> #[trigger] entered_item(r.edges@, i),
    {
        assert(grammar_size(grammar@.rules) < usize::MAX / 2) by (nonlinear_arith)
            requires
                grammar_size(grammar@.rules) * grammar_size(grammar@.rules) < usize::MAX,
        {
            if grammar_size(grammar@.rules) >= 2 {
                assert(grammar_size(grammar@.rules) * grammar_size(grammar@.rules) >= 2 * grammar_size(grammar@.rules));
            }
        }
        let g = IndexedGrammar::from_grammar(grammar);
        Self::from_indexed(g)
    }

    /// The item graph of an indexed grammar.
    #[verifier::rlimit(100)]
    #[verifier::spinoff_prover]
    pub fn from_indexed(g: IndexedGrammar) -> (r: NonDeterministicLR1Automaton)
        requires
            g.wf(),
            g.size() * g.size() < usize::MAX,
            g.nn() + g.nt() <= g.size(),
        ensures
            r.wf(),
            r.grammar == g,
            r.start == 0,
            forall|i: int| 0 < i < r.items@.len() ==> #[trigger] entered_item(r.edges@, i),
    {
        let sets = calculate_first_sets(&g);
        let mut d = Discovery::new(&g);
        let start_item = LR1Item { rule: g.root_rule, position: 0, lookup: g.terms.len() };
        let start = d.find_or_add(&g, start_item);
        let mut edges: Vec<Vec<(usize, Label)>> = Vec::new();
        let ghost bound = d.bound(&g);
        let ghost base = d.base@;
        let mut p: usize = 0;
        while p < d.items.len()
            invariant
                g.wf(),
                sets.least(&g),
                sets.first@.len() == g.nn(),
                forall|a: int| 0 <= a < g.nn() ==> (#[trigger] sets.first@[a])@.len() == g.nt(),
                d.wf(&g),
                d.base@ == base,
                bound == d.bound(&g),
                start == 0,
                d.items@.len() > 0,
                d.items@[0] == start_item,
                start_item == (LR1Item { rule: g.root_rule, position: 0, lookup: g.nt() as usize }),
                edges@.len() == p,
                forall|i: int| 0 < i < d.items@.len() ==> #[trigger] entered_item(edges@, i),
                p <= d.items@.len(),
                forall|i: int, e: int| 0 <= i < p && 0 <= e < edges@[i]@.len() ==> {
                    let (k, lab) = #[trigger] edges@[i]@[e];
                    &&& k < d.items@.len()
                    &&& nfa_step(&g, &sets, d.items@[i], lab, d.items@[k as int])
                },
                forall|i: int, lab: Label, it2: LR1Item| 0 <= i < p && #[trigger] nfa_step(&g, &sets, d.items@[i], lab, it2)
                    ==> exists|e: int| 0 <= e < edges@[i]@.len() && #[trigger] edges@[i]@[e] == (
                        edges@[i]@[e].0,
                        lab,
                    ) && d.items@[edges@[i]@[e].0 as int] == it2,
            decreases bound - d.items@.len(), d.items@.len() - p,
        {
            proof {
                d.lemma_distinct(&g);
            }
            let ghost len0 = d.items@.len();
            let it = d.items[p];
            let ghost items0 = d.items@;
            let mut out: Vec<(usize, Label)> = Vec::new();
            let right = &g.rules[it.rule].right;
            assert(item_ok(&g, it));
            if it.position < right.len() {
                let x = right[it.position];
                let next = LR1Item { rule: it.rule, position: it.position + 1, lookup: it.lookup };
                let k = d.find_or_add(&g, next);
                out.push((k, Label::Sym(x)));
                assert forall|i: int| len0 <= i < d.items@.len() implies #[trigger] targets_item(out@, i) by {
                    assert(d.items@.len() <= len0 + 1);
                    assert(out@[0].0 == k);
                    assert(i == k);
                }
                if let Sym::N(b) = x {
                    assert(g.sym_ok(g.rhs(it.rule as int)[it.position as int]));
                    let la = lookaheads(&g, &sets, it.rule, it.position + 1, it.lookup);
                    let mut r2: usize = 0;
                    while r2 < g.rules.len()
                        invariant
                            g.wf(),
                            d.wf(&g),
                            d.base@ == base,
                            bound == d.bound(&g),
                            p < d.items@.len(),
                            d.items@.len() >= len0,
                            items0 == d.items@.subrange(0, len0 as int),
                            edges@.len() == p,
                            forall|i: int| 0 < i < len0 ==> #[trigger] entered_item(edges@, i),
                            forall|i: int| len0 <= i < d.items@.len() ==> #[trigger] targets_item(out@, i),
                            it == d.items@[p as int],
                            item_ok(&g, it),
                            right@ == g.rhs(it.rule as int),
                            it.position < right@.len(),
                            x == right@[it.position as int],
                            x == Sym::N(b),
                            la@.len() == g.nt() + 1,
                            forall|bb: int| 0 <= bb <= g.nt() ==> (#[trigger] la@[bb] <==> in_first_of_rest(
                                sets.nullable@,
                                sets.first_view(),
                                g.rhs(it.rule as int).subrange(it.position + 1, g.rhs(it.rule as int).len() as int),
                                it.lookup as int,
                                bb,
                            )),
                            r2 <= g.rules@.len(),
                            forall|e: int| 0 <= e < out@.len() ==> {
                                let (k, lab) = #[trigger] out@[e];
                                &&& k < d.items@.len()
                                &&& nfa_step(&g, &sets, it, lab, d.items@[k as int])
                            },
                            out@.len() > 0,
                            out@[0] == (out@[0].0, Label::Sym(x)),
                            d.items@[out@[0].0 as int] == next,
                            forall|q: int, bb: int| 0 <= q < r2 && 0 <= bb <= g.nt() && #[trigger] g.lhs(q) == b && #[trigger] la@[bb]
                                ==> exists|e: int| 0 <= e < out@.len() && #[trigger] out@[e] == (out@[e].0, Label::Empty)
                                    && d.items@[out@[e].0 as int] == (LR1Item { rule: q as usize, position: 0, lookup: bb as usize }),
                        decreases g.rules.len() - r2,
                    {
                        if g.rules[r2].left == b {
                            let mut bb: usize = 0;
                            while bb <= g.terms.len()
                                invariant
                                    g.wf(),
                                    d.wf(&g),
                                    d.base@ == base,
                                    bound == d.bound(&g),
                                    p < d.items@.len(),
                                    d.items@.len() >= len0,
                                    items0 == d.items@.subrange(0, len0 as int),
                                    edges@.len() == p,
                                    forall|i: int| 0 < i < len0 ==> #[trigger] entered_item(edges@, i),
                                    forall|i: int| len0 <= i < d.items@.len() ==> #[trigger] targets_item(out@, i),
                                    it == d.items@[p as int],
                                    item_ok(&g, it),
                                    right@ == g.rhs(it.rule as int),
                                    it.position < right@.len(),
                                    x == right@[it.position as int],
                                    x == Sym::N(b),
                                    la@.len() == g.nt() + 1,
                                    forall|c: int| 0 <= c <= g.nt() ==> (#[trigger] la@[c] <==> in_first_of_rest(
                                        sets.nullable@,
                                        sets.first_view(),
                                        g.rhs(it.rule as int).subrange(it.position + 1, g.rhs(it.rule as int).len() as int),
                                        it.lookup as int,
                                        c,
                                    )),
                                    r2 < g.rules@.len(),
                                    g.lhs(r2 as int) == b,
                                    bb <= g.nt() + 1,
                                    forall|e: int| 0 <= e < out@.len() ==> {
                                        let (k, lab) = #[trigger] out@[e];
                                        &&& k < d.items@.len()
                                        &&& nfa_step(&g, &sets, it, lab, d.items@[k as int])
                                    },
                                    out@.len() > 0,
                                    out@[0] == (out@[0].0, Label::Sym(x)),
                                    d.items@[out@[0].0 as int] == next,
                                    forall|q: int, c: int| 0 <= q < r2 && 0 <= c <= g.nt() && #[trigger] g.lhs(q) == b && #[trigger] la@[c]
                                        ==> exists|e: int| 0 <= e < out@.len() && #[trigger] out@[e] == (out@[e].0, Label::Empty)
                                            && d.items@[out@[e].0 as int] == (LR1Item { rule: q as usize, position: 0, lookup: c as usize }),
                                    forall|c: int| 0 <= c < bb && #[trigger] la@[c]
                                        ==> exists|e: int| 0 <= e < out@.len() && #[trigger] out@[e] == (out@[e].0, Label::Empty)
                                            && d.items@[out@[e].0 as int] == (LR1Item { rule: r2, position: 0, lookup: c as usize }),
                                decreases g.terms.len() + 1 - bb,
                            {
                                if la[bb] {
                                    let target = LR1Item { rule: r2, position: 0, lookup: bb };
                                    let ghost items1 = d.items@;
                                    let kk = d.find_or_add(&g, target);
                                    assert(items1 == d.items@.subrange(0, items1.len() as int));
                                    let ghost out0 = out@;
                                    let ghost n_before = items1.len();
                                    out.push((kk, Label::Empty));
                                    assert forall|i: int| len0 <= i < d.items@.len() implies #[trigger] targets_item(out@, i) by {
                                        if i < n_before {
                                            assert(targets_item(out0, i));
                                            let e = choose|e: int| 0 <= e < out0.len() && (#[trigger] out0[e]).0 == i;
                                            assert(out@[e] == out0[e]);
                                        } else {
                                            assert(out@[out0.len() as int].0 == kk);
                                        }
                                    }
                                    proof {
                                        assert(out@[out@.len() - 1] == (kk, Label::Empty));
                                        assert(nfa_step(&g, &sets, it, Label::Empty, target));
                                        assert forall|e: int| 0 <= e < out@.len() implies {
                                            let (k, lab) = #[trigger] out@[e];
                                            &&& k < d.items@.len()
                                            &&& nfa_step(&g, &sets, it, lab, d.items@[k as int])
                                        } by {
                                            if e < out0.len() {
                                                assert(out@[e] == out0[e]);
                                                assert(d.items@[out0[e].0 as int] == items1[out0[e].0 as int]);
                                            }
                                        }
                                        assert forall|q: int, c: int| 0 <= q < r2 && 0 <= c <= g.nt() && #[trigger] g.lhs(q) == b && #[trigger] la@[c]
                                            implies exists|e: int| 0 <= e < out@.len() && #[trigger] out@[e] == (out@[e].0, Label::Empty)
                                                && d.items@[out@[e].0 as int] == (LR1Item { rule: q as usize, position: 0, lookup: c as usize }) by {
                                            let e = choose|e: int| 0 <= e < out0.len() && #[trigger] out0[e] == (out0[e].0, Label::Empty)
                                                && items1[out0[e].0 as int] == (LR1Item { rule: q as usize, position: 0, lookup: c as usize });
                                            assert(out@[e] == out0[e]);
                                        }
                                        assert forall|c: int| 0 <= c < bb + 1 && #[trigger] la@[c]
                                            implies exists|e: int| 0 <= e < out@.len() && #[trigger] out@[e] == (out@[e].0, Label::Empty)
                                                && d.items@[out@[e].0 as int] == (LR1Item { rule: r2, position: 0, lookup: c as usize }) by {
                                            if c < bb {
                                                let e = choose|e: int| 0 <= e < out0.len() && #[trigger] out0[e] == (out0[e].0, Label::Empty)
                                                    && items1[out0[e].0 as int] == (LR1Item { rule: r2, position: 0, lookup: c as usize });
                                                assert(out@[e] == out0[e]);
                                            } else {
                                                assert(out@[out0.len() as int] == (kk, Label::Empty));
                                            }
                                        }
                                        assert(out@[0] == out0[0]);
                                        assert(d.items@[out@[0].0 as int] == items1[out0[0].0 as int]);
                                        assert(d.items@.subrange(0, len0 as int) =~= items1.subrange(0, len0 as int));
                                    }
                                }
                                bb += 1;
                            }
                        }
                        r2 += 1;
                    }
                    proof {
                        assert forall|lab: Label, it2: LR1Item| #[trigger] nfa_step(&g, &sets, it, lab, it2)
                            implies exists|e: int| 0 <= e < out@.len() && #[trigger] out@[e] == (out@[e].0, lab) && d.items@[out@[e].0 as int] == it2 by {
                            if lab == Label::Sym(x) {
                                assert(out@[0] == (out@[0].0, lab));
                            } else {
                                assert(it2.lookup <= g.nt());
                                assert(la@[it2.lookup as int]);
                                let q = it2.rule as int;
                                assert(g.lhs(q) == b && la@[it2.lookup as int]);
                            }
                        }
                    }
                } else {
                    proof {
                        assert forall|lab: Label, it2: LR1Item| #[trigger] nfa_step(&g, &sets, it, lab, it2)
                            implies exists|e: int| 0 <= e < out@.len() && #[trigger] out@[e] == (out@[e].0, lab) && d.items@[out@[e].0 as int] == it2 by {
                            assert(out@[0] == (out@[0].0, lab));
                        }
                    }
                }
            }
            let ghost items_now = d.items@;
            let ghost out_g = out@;
            let ghost edges0 = edges@;
            edges.push(out);
            proof {
                assert forall|i: int| 0 < i < d.items@.len() implies #[trigger] entered_item(edges@, i) by {
                    if i < len0 {
                        assert(entered_item(edges0, i));
                        let (p2, e2) = choose|p2: int, e2: int| 0 <= p2 < i && p2 < edges0.len() && 0 <= e2 < edges0[p2]@.len() && #[trigger] edges0[p2]@[e2].0 == i;
                        assert(edges@[p2] == edges0[p2]);
                    } else {
                        assert(targets_item(out_g, i));
                        let e2 = choose|e2: int| 0 <= e2 < out_g.len() && (#[trigger] out_g[e2]).0 == i;
                        assert(edges@[p as int]@ == out_g);
                        assert(edges@[p as int]@[e2].0 == i);
                    }
                }
                assert forall|i: int, e: int| 0 <= i < p + 1 && 0 <= e < edges@[i]@.len() implies {
                    let (k, lab) = #[trigger] edges@[i]@[e];
                    &&& k < d.items@.len()
                    &&& nfa_step(&g, &sets, d.items@[i], lab, d.items@[k as int])
                } by {
                    if i < p {
                        assert(d.items@[i] == items0[i]);
                        assert(d.items@[edges@[i]@[e].0 as int] == items0[edges@[i]@[e].0 as int]);
                    }
                }
                assert forall|i: int, lab: Label, it2: LR1Item| 0 <= i < p + 1 && #[trigger] nfa_step(&g, &sets, d.items@[i], lab, it2)
                    implies exists|e: int| 0 <= e < edges@[i]@.len() && #[trigger] edges@[i]@[e] == (
                        edges@[i]@[e].0,
                        lab,
                    ) && d.items@[edges@[i]@[e].0 as int] == it2 by {
                    if i < p {
                        assert(d.items@[i] == items0[i]);
                        let e = choose|e: int| 0 <= e < edges@[i]@.len() && #[trigger] edges@[i]@[e] == (
                            edges@[i]@[e].0,
                            lab,
                        ) && items0[edges@[i]@[e].0 as int] == it2;
                        assert(d.items@[edges@[i]@[e].0 as int] == items0[edges@[i]@[e].0 as int]);
                    }
                }
                d.lemma_distinct(&g);
            }
            p += 1;
        }
        proof {
            d.lemma_distinct(&g);
        }
        let r = NonDeterministicLR1Automaton { grammar: g, sets, items: d.items, edges, start };
        proof {
            reveal(NonDeterministicLR1Automaton::edges_complete);
        }
        r
    }
}

/// The name of a symbol.
pub open spec fn sym_name(g: &IndexedGrammar, x: Sym) -> Seq<char> {
    match x {
        Sym::T(t) => g.terms@[t as int]@,
        Sym::N(n) => g.nterms@[n as int]@,
    }
}

/// The first `n` symbols of `rhs`, each followed by a space, with `^`
/// before the one at `pos`.
pub open spec fn rhs_dot(g: &IndexedGrammar, rhs: Seq<Sym>, pos: int, n: int) -> Seq<char>
    decreases n,
{
    if n <= 0 {
        Seq::empty()
    } else {
        rhs_dot(g, rhs, pos, n - 1) + (if n - 1 == pos { "^"@ } else { Seq::empty() }) + sym_name(g, rhs[n - 1]) + " "@
    }
}

/// An item as `A -> X ^Y , a`.
pub open spec fn item_text(g: &IndexedGrammar, it: LR1Item) -> Seq<char> {
    let rhs = g.rhs(it.rule as int);
    g.nterms@[g.lhs(it.rule as int)]@ + " -> "@ + rhs_dot(g, rhs, it.position as int, rhs.len() as int)
        + (if it.position == rhs.len() { "^"@ } else { Seq::empty() }) + ", "@
        + (if it.lookup < g.nt() { g.terms@[it.lookup as int]@ } else { "$"@ })
}

/// Appends the name of a symbol.
pub fn push_sym(out: &mut String, g: &IndexedGrammar, x: Sym)
    requires
        g.wf(),
        g.sym_ok(x),
    ensures
        final(out)@ == old(out)@ + sym_name(g, x),
{
    match x {
        Sym::T(t) => push_str(out, g.terms[t].as_str()),
        Sym::N(n) => push_str(out, g.nterms[n].as_str()),
    }
}

/// Appends an item as `A -> X ^Y , a`: the dot shown as `^`.
pub fn push_item(out: &mut String, g: &IndexedGrammar, it: LR1Item)
    requires
        g.wf(),
        item_ok(g, it),
    ensures
        final(out)@ == old(out)@ + item_text(g, it),
{
    let rule = &g.rules[it.rule];
    let ghost rhs = g.rhs(it.rule as int);
    assert(g.lhs(it.rule as int) < g.nn());
    push_str(out, g.nterms[rule.left].as_str());
    push_str(out, " -> ");
    let ghost head = out@;
    let mut i: usize = 0;
    while i < rule.right.len()
        invariant
            g.wf(),
            item_ok(g, it),
            rule == g.rules@[it.rule as int],
            rhs == g.rhs(it.rule as int),
            i <= rule.right@.len(),
            out@ == head + rhs_dot(g, rhs, it.position as int, i as int),
        decreases rule.right.len() - i,
    {
        if i == it.position {
            push_str(out, "^");
        }
        assert(g.sym_ok(g.rhs(it.rule as int)[i as int]));
        push_sym(out, g, rule.right[i]);
        push_str(out, " ");
        assert(out@ =~= head + rhs_dot(g, rhs, it.position as int, i + 1));
        i += 1;
    }
    if it.position == rule.right.len() {
        push_str(out, "^");
    }
    push_str(out, ", ");
    if it.lookup < g.terms.len() {
        push_str(out, g.terms[it.lookup].as_str());
    } else {
        push_str(out, "$");
    }
    assert(out@ =~= old(out)@ + item_text(g, it));
}

/// Appends the closing brace of a graph.
pub fn push_close(out: &mut String)
    ensures
        closed_graph(final(out)@),
        final(out)@ == old(out)@ + "}\n"@,
{
    proof {
        reveal_strlit("}\n");
    }
    push_str(out, "}\n");
}

/// The start of a graph drawn from left to right.
pub fn graph_header() -> (r: String)
    ensures
        r@ == "digraph G {\nrankdir=\"LR\"\n"@,
{
    crate::grammar::str_to_string("digraph G {\nrankdir=\"LR\"\n")
}

impl NonDeterministicLR1Automaton {
    /// The item graph in Graphviz's dot language; reducible items in red.
    pub fn to_graphviz(&self) -> (r: String)
        requires
            self.wf(),
        ensures
            r@ == nfa_dot(self),
            closed_graph(r@),
    {
        let g = &self.grammar;
        let mut result = graph_header();
        let ghost head = result@;
        let mut i: usize = 0;
        while i < self.items.len()
            invariant
                self.wf(),
                g == &self.grammar,
                i <= self.items@.len(),
                result@ == head + item_lines(self, i as int),
            decreases self.items.len() - i,
        {
            let it = self.items[i];
            push_decimal(&mut result, i as u64);
            push_str(&mut result, " [label=\"");
            push_item(&mut result, g, it);
            if it.is_finish(g) {
                push_str(&mut result, "\", shape=\"rectangle\", color=\"red\"]\n");
            } else {
                push_str(&mut result, "\", shape=\"rectangle\", color=\"black\"]\n");
            }
            assert(result@ =~= head + item_lines(self, i + 1));
            i += 1;
        }
        push_str(&mut result, "fake [style=\"invis\"]\nfake -> ");
        push_decimal(&mut result, self.start as u64);
        push_str(&mut result, "\n");
        let ghost mid = result@;
        let mut i: usize = 0;
        while i < self.edges.len()
            invariant
                self.wf(),
                g == &self.grammar,
                i <= self.edges@.len(),
                result@ == mid + edge_lines(self, i as int),
            decreases self.edges.len() - i,
        {
            let out = &self.edges[i];
            let ghost before = result@;
            let mut e: usize = 0;
            while e < out.len()
                invariant
                    self.wf(),
                    g == &self.grammar,
                    i < self.edges@.len(),
                    out == self.edges@[i as int],
                    e <= out@.len(),
                    result@ == before + node_edge_lines(self, i as int, e as int),
                decreases out.len() - e,
            {
                push_edge_line(&mut result, self, i, e);
                assert(result@ =~= before + node_edge_lines(self, i as int, e + 1));
                e += 1;
            }
            assert(result@ =~= mid + edge_lines(self, i + 1));
            i += 1;
        }
        assert(self.items@.len() == self.edges@.len());
        push_close(&mut result);
        assert(result@ =~= nfa_dot(self));
        result
    }
}

/// Appends the line of edge `e` out of item `i`.
#[verifier::rlimit(50)]
fn push_edge_line(out: &mut String, nfa: &NonDeterministicLR1Automaton, i: usize, e: usize)
    requires
        nfa.wf(),
        i < nfa.edges@.len(),
        e < nfa.edges@[i as int]@.len(),
    ensures
        final(out)@ == old(out)@ + decimal(i as nat) + " -> "@ + decimal(nfa.edges@[i as int]@[e as int].0 as nat) + " [label=\""@
            + label_text(&nfa.grammar, nfa.edges@[i as int]@[e as int].1) + "\"]\n"@,
{
    let g = &nfa.grammar;
    let (k, lab) = nfa.edges[i][e];
    push_decimal(out, i as u64);
    push_str(out, " -> ");
    push_decimal(out, k as u64);
    push_str(out, " [label=\"");
    match lab {
        Label::Sym(x) => {
            proof {
                let it = nfa.items@[i as int];
                assert(nfa_step(g, &nfa.sets, it, lab, nfa.items@[k as int]));
                assert(item_ok(g, it));
                assert(g.sym_ok(g.rhs(it.rule as int)[it.position as int]));
            }
            push_sym(out, g, x);
        },
        Label::Empty => push_str(out, "EPS"),
    }
    push_str(out, "\"]\n");
    assert(final(out)@ =~= old(out)@ + decimal(i as nat) + " -> "@ + decimal(k as nat) + " [label=\""@
        + label_text(g, lab) + "\"]\n"@);
}

/// The label of an edge: a symbol's name, or `EPS`.
pub open spec fn label_text(g: &IndexedGrammar, lab: Label) -> Seq<char> {
    match lab {
        Label::Sym(x) => sym_name(g, x),
        Label::Empty => "EPS"@,
    }
}

/// The node lines of the first `n` items.
pub open spec fn item_lines(nfa: &NonDeterministicLR1Automaton, n: int) -> Seq<char>
    decreases n,
{
    if n <= 0 {
        Seq::empty()
    } else {
        let it = nfa.items@[n - 1];
        item_lines(nfa, n - 1) + decimal((n - 1) as nat) + " [label=\""@ + item_text(&nfa.grammar, it)
            + (if it.position == nfa.grammar.rhs(it.rule as int).len() {
                "\", shape=\"rectangle\", color=\"red\"]\n"@
            } else {
                "\", shape=\"rectangle\", color=\"black\"]\n"@
            })
    }
}

/// The lines of the first `m` edges out of item `i`.
pub open spec fn node_edge_lines(nfa: &NonDeterministicLR1Automaton, i: int, m: int) -> Seq<char>
    decreases m,
{
    if m <= 0 {
        Seq::empty()
    } else {
        let (k, lab) = nfa.edges@[i]@[m - 1];
        node_edge_lines(nfa, i, m - 1) + decimal(i as nat) + " -> "@ + decimal(k as nat) + " [label=\""@
            + label_text(&nfa.grammar, lab) + "\"]\n"@
    }
}

/// The edge lines of the first `n` items.
pub open spec fn edge_lines(nfa: &NonDeterministicLR1Automaton, n: int) -> Seq<char>
    decreases n,
{
    if n <= 0 {
        Seq::empty()
    } else {
        edge_lines(nfa, n - 1) + node_edge_lines(nfa, n - 1, nfa.edges@[n - 1]@.len() as int)
    }
}

/// The item graph in dot: a node per item, an invisible node pointing at
/// the start item, and an edge per edge.
pub open spec fn nfa_dot(nfa: &NonDeterministicLR1Automaton) -> Seq<char> {
    "digraph G {\nrankdir=\"LR\"\n"@ + item_lines(nfa, nfa.items@.len() as int) + "fake [style=\"invis\"]\nfake -> "@
        + decimal(nfa.start as nat) + "\n"@ + edge_lines(nfa, nfa.edges@.len() as int) + "}\n"@
}

} // verus!
