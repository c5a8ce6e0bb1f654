//! Nullable non-terminals and FIRST sets, as least fixed points.

use vstd::prelude::*;
use crate::grammar::{Grammar, Nonterminal, Terminal, copy_string, declared, root_name};
use crate::indexed::{IndexedGrammar, Sym, grammar_size};

verus! {

/// Number of `true` entries.
pub open spec fn count_true(s: Seq<bool>) -> nat
    decreases s.len(),
{
    if s.len() == 0 {
        0
    } else {
        count_true(s.drop_last()) + if s.last() { 1nat } else { 0nat }
    }
}

pub proof fn lemma_count_true_bound(s: Seq<bool>)
    ensures
        count_true(s) <= s.len(),
    decreases s.len(),
{
    if s.len() > 0 {
        lemma_count_true_bound(s.drop_last());
    }
}

pub proof fn lemma_count_true_set(s: Seq<bool>, i: int)
    requires
        0 <= i < s.len(),
        !s[i],
    ensures
        count_true(s.update(i, true)) == count_true(s) + 1,
    decreases s.len(),
{
    let t = s.update(i, true);
    if i < s.len() - 1 {
        assert(t.drop_last() =~= s.drop_last().update(i, true));
        lemma_count_true_set(s.drop_last(), i);
    } else {
        assert(t.drop_last() =~= s.drop_last());
    }
}

/// Entries of `a` that are set are set in `b` too.
pub open spec fn le(a: Seq<bool>, b: Seq<bool>) -> bool {
    a.len() == b.len() && forall|i: int| 0 <= i < a.len() && #[trigger] a[i] ==> b[i]
}

pub proof fn lemma_count_true_le(a: Seq<bool>, b: Seq<bool>)
    requires
        le(a, b),
    ensures
        count_true(a) <= count_true(b),
    decreases a.len(),
{
    if a.len() > 0 {
        lemma_count_true_le(a.drop_last(), b.drop_last());
    }
}

/// Symbol `s` is a nullable non-terminal under `nullable`.
pub open spec fn sym_nullable(nullable: Seq<bool>, s: Sym) -> bool {
    match s {
        Sym::N(n) => n < nullable.len() && nullable[n as int],
        Sym::T(_) => false,
    }
}

/// The first `k` symbols of `rhs` are nullable.
pub open spec fn prefix_nullable(nullable: Seq<bool>, rhs: Seq<Sym>, k: int) -> bool {
    forall|j: int| 0 <= j < k ==> #[trigger] sym_nullable(nullable, rhs[j])
}

/// A rule whose right-hand side is all nullable has a nullable left side.
pub open spec fn nullable_closed(g: &IndexedGrammar, nullable: Seq<bool>) -> bool {
    &&& nullable.len() == g.nn()
    &&& forall|r: int|
        0 <= r < g.rules@.len() && #[trigger] prefix_nullable(nullable, g.rhs(r), g.rhs(r).len() as int)
            ==> nullable[g.lhs(r)]
}

/// What the symbol `s` met after a nullable prefix adds to FIRST of `a`.
pub open spec fn contributes(first: Seq<Seq<bool>>, a: int, s: Sym) -> bool {
    match s {
        Sym::T(t) => first[a][t as int],
        Sym::N(b) => le(first[b as int], first[a]),
    }
}

/// The table has one row per non-terminal and one column per terminal.
pub open spec fn first_shape(g: &IndexedGrammar, first: Seq<Seq<bool>>) -> bool {
    &&& first.len() == g.nn()
    &&& forall|a: int| 0 <= a < first.len() ==> #[trigger] first[a].len() == g.nt()
}

/// For each rule `A -> X1 .. Xk` and each `Xj` after a nullable prefix:
/// a terminal `Xj` is in FIRST(A), and FIRST(Xj) is in FIRST(A) for a
/// non-terminal `Xj`.
pub open spec fn first_closed(g: &IndexedGrammar, nullable: Seq<bool>, first: Seq<Seq<bool>>) -> bool {
    &&& first_shape(g, first)
    &&& forall|r: int, k: int|
        0 <= r < g.rules@.len() && 0 <= k < g.rhs(r).len() && #[trigger] prefix_nullable(nullable, g.rhs(r), k)
            ==> contributes(first, g.lhs(r), #[trigger] g.rhs(r)[k])
}

pub open spec fn le2(a: Seq<Seq<bool>>, b: Seq<Seq<bool>>) -> bool {
    a.len() == b.len() && forall|i: int| 0 <= i < a.len() ==> le(#[trigger] a[i], b[i])
}

/// Number of `true` entries of a table.
pub open spec fn count_true2(m: Seq<Seq<bool>>) -> nat
    decreases m.len(),
{
    if m.len() == 0 {
        0
    } else {
        count_true2(m.drop_last()) + count_true(m.last())
    }
}

pub proof fn lemma_count_true2_bound(m: Seq<Seq<bool>>, w: nat)
    requires
        forall|a: int| 0 <= a < m.len() ==> #[trigger] m[a].len() == w,
    ensures
        count_true2(m) <= m.len() * w,
    decreases m.len(),
{
    if m.len() > 0 {
        lemma_count_true2_bound(m.drop_last(), w);
        lemma_count_true_bound(m.last());
        assert((m.len() - 1) * w + w == m.len() * w) by (nonlinear_arith);
    }
}

pub proof fn lemma_count_true2_set(m: Seq<Seq<bool>>, a: int, t: int)
    requires
        0 <= a < m.len(),
        0 <= t < m[a].len(),
        !m[a][t],
    ensures
        count_true2(m.update(a, m[a].update(t, true))) == count_true2(m) + 1,
    decreases m.len(),
{
    let n = m.update(a, m[a].update(t, true));
    if a < m.len() - 1 {
        assert(n.drop_last() =~= m.drop_last().update(a, m[a].update(t, true)));
        lemma_count_true2_set(m.drop_last(), a, t);
    } else {
        assert(n.drop_last() =~= m.drop_last());
        lemma_count_true_set(m[a], t);
    }
}

pub proof fn lemma_count_true2_le(a: Seq<Seq<bool>>, b: Seq<Seq<bool>>)
    requires
        le2(a, b),
    ensures
        count_true2(a) <= count_true2(b),
    decreases a.len(),
{
    if a.len() > 0 {
        lemma_count_true_le(a.last(), b.last());
        lemma_count_true2_le(a.drop_last(), b.drop_last());
    }
}

pub proof fn lemma_count_true2_row(m1: Seq<Seq<bool>>, m2: Seq<Seq<bool>>, a: int)
    requires
        le2(m1, m2),
        0 <= a < m1.len(),
        count_true(m2[a]) > count_true(m1[a]),
    ensures
        count_true2(m2) > count_true2(m1),
    decreases m1.len(),
{
    lemma_count_true_le(m1.last(), m2.last());
    if a < m1.len() - 1 {
        lemma_count_true2_row(m1.drop_last(), m2.drop_last(), a);
    } else {
        lemma_count_true2_le(m1.drop_last(), m2.drop_last());
    }
}

/// Nullable flags, one per non-terminal, and the FIRST table: `first[a][t]`
/// when terminal `t` can begin a string derived from non-terminal `a`.
/// The empty string is in FIRST(a) when `nullable[a]`.
pub struct FirstSets {
    pub nullable: Vec<bool>,
    pub first: Vec<Vec<bool>>,
}

impl FirstSets {
    /// The least solution of the nullable and FIRST equations of `g`.
    pub open spec fn least(&self, g: &IndexedGrammar) -> bool {
        &&& nullable_closed(g, self.nullable@)
        &&& forall|n: Seq<bool>| #[trigger] nullable_closed(g, n) ==> le(self.nullable@, n)
        &&& first_closed(g, self.nullable@, self.first_view())
        &&& forall|f: Seq<Seq<bool>>| #[trigger] first_closed(g, self.nullable@, f) ==> le2(self.first_view(), f)
    }

    pub open spec fn first_view(&self) -> Seq<Seq<bool>> {
        self.first@.map_values(|row: Vec<bool>| row@)
    }
}

fn falses(n: usize) -> (r: Vec<bool>)
    ensures
        r@.len() == n,
        forall|i: int| 0 <= i < n ==> !r@[i],
{
    let mut r: Vec<bool> = Vec::new();
    let mut i: usize = 0;
    while i < n
        invariant
            i <= n,
            r@.len() == i,
            forall|j: int| 0 <= j < i ==> !r@[j],
        decreases n - i,
    {
        r.push(false);
        i += 1;
    }
    r
}

/// The nullable non-terminals: the least set closed under the rules.
pub fn calculate_nullable(g: &IndexedGrammar) -> (r: Vec<bool>)
    requires
        g.wf(),
    ensures
        nullable_closed(g, r@),
        forall|n: Seq<bool>| #[trigger] nullable_closed(g, n) ==> le(r@, n),
{
    let nn = g.nterms.len();
    let mut nullable = falses(nn);
    let mut changed = true;
    while changed
        invariant
            g.wf(),
            nn == g.nn(),
            nullable@.len() == nn,
            forall|n: Seq<bool>| #[trigger] nullable_closed(g, n) ==> le(nullable@, n),
            !changed ==> nullable_closed(g, nullable@),
        decreases nn - count_true(nullable@) + if changed { 1int } else { 0int },
    {
        proof {
            lemma_count_true_bound(nullable@);
        }
        let ghost start_count = count_true(nullable@);
        changed = false;
        let mut r: usize = 0;
        while r < g.rules.len()
            invariant
                g.wf(),
                nn == g.nn(),
                nullable@.len() == nn,
                r <= g.rules@.len(),
                forall|n: Seq<bool>| #[trigger] nullable_closed(g, n) ==> le(nullable@, n),
                changed ==> count_true(nullable@) > start_count,
                !changed ==> count_true(nullable@) == start_count,
                !changed ==> forall|q: int| 0 <= q < r && #[trigger] prefix_nullable(nullable@, g.rhs(q), g.rhs(q).len() as int) ==> nullable@[g.lhs(q)],
            decreases g.rules.len() - r,
        {
            let rule = &g.rules[r];
            let left = rule.left;
            assert(g.lhs(r as int) < g.nn());
            if !nullable[left] {
                let mut all = true;
                let mut k: usize = 0;
                while k < rule.right.len()
                    invariant
                        g.wf(),
                        r < g.rules@.len(),
                        rule == g.rules@[r as int],
                        nullable@.len() == nn,
                        nn == g.nn(),
                        k <= rule.right@.len(),
                        all == prefix_nullable(nullable@, g.rhs(r as int), k as int),
                    decreases rule.right.len() - k,
                {
                    let ok = match rule.right[k] {
                        Sym::N(n) => nullable[n],
                        Sym::T(_) => false,
                    };
                    assert(g.sym_ok(g.rhs(r as int)[k as int]));
                    assert(ok == sym_nullable(nullable@, g.rhs(r as int)[k as int]));
                    all = all && ok;
                    k += 1;
                }
                if all {
                    assert forall|n: Seq<bool>| #[trigger] nullable_closed(g, n) implies le(nullable@.update(left as int, true), n) by {
                        assert(le(nullable@, n));
                        assert forall|j: int| 0 <= j < g.rhs(r as int).len() implies #[trigger] sym_nullable(n, g.rhs(r as int)[j]) by {
                            assert(sym_nullable(nullable@, g.rhs(r as int)[j]));
                        }
                        assert(prefix_nullable(n, g.rhs(r as int), g.rhs(r as int).len() as int));
                    }
                    proof {
                        lemma_count_true_set(nullable@, left as int);
                    }
                    nullable.set(left, true);
                    changed = true;
                }
            }
            r += 1;
        }
        proof {
            lemma_count_true_bound(nullable@);
        }
    }
    nullable
}

fn set_cell(first: &mut Vec<Vec<bool>>, a: usize, t: usize)
    requires
        a < old(first)@.len(),
        t < old(first)@[a as int]@.len(),
    ensures
        final(first)@.len() == old(first)@.len(),
        forall|b: int| 0 <= b < final(first)@.len() && b != a ==> #[trigger] final(first)@[b] == old(first)@[b],
        final(first)@[a as int]@ == old(first)@[a as int]@.update(t as int, true),
{
    let mut row: Vec<bool> = Vec::new();
    std::mem::swap(&mut row, &mut first[a]);
    row.set(t, true);
    first.set(a, row);
}

/// Marks every terminal of FIRST(b) in FIRST(a); tells whether an entry was
/// added.
fn union_row(first: &mut Vec<Vec<bool>>, a: usize, b: usize, nt: usize) -> (changed: bool)
    requires
        a < old(first)@.len(),
        b < old(first)@.len(),
        old(first)@[a as int]@.len() == nt,
        old(first)@[b as int]@.len() == nt,
    ensures
        final(first)@.len() == old(first)@.len(),
        forall|c: int| 0 <= c < final(first)@.len() && c != a ==> #[trigger] final(first)@[c] == old(first)@[c],
        final(first)@[a as int]@.len() == nt,
        forall|t: int| 0 <= t < nt ==> (#[trigger] final(first)@[a as int]@[t] == (old(first)@[a as int]@[t] || old(first)@[b as int]@[t])),
        changed ==> count_true(final(first)@[a as int]@) > count_true(old(first)@[a as int]@),
        !changed ==> final(first)@ == old(first)@,
{
    let ghost orig = first@;
    let mut changed = false;
    let mut t: usize = 0;
    while t < nt
        invariant
            t <= nt,
            a < first@.len(),
            b < first@.len(),
            first@.len() == orig.len(),
            forall|c: int| 0 <= c < first@.len() && c != a ==> #[trigger] first@[c] == orig[c],
            first@[a as int]@.len() == nt,
            orig[a as int]@.len() == nt,
            orig[b as int]@.len() == nt,
            forall|u: int| 0 <= u < t ==> (#[trigger] first@[a as int]@[u] == (orig[a as int]@[u] || orig[b as int]@[u])),
            forall|u: int| t <= u < nt ==> #[trigger] first@[a as int]@[u] == orig[a as int]@[u],
            le(orig[a as int]@, first@[a as int]@),
            changed ==> count_true(first@[a as int]@) > count_true(orig[a as int]@),
            !changed ==> first@ == orig,
        decreases nt - t,
    {
        let from_b = if a == b { false } else { first[b][t] };
        if from_b && !first[a][t] {
            proof {
                lemma_count_true_set(first@[a as int]@, t as int);
                lemma_count_true_le(orig[a as int]@, first@[a as int]@);
            }
            set_cell(first, a, t);
            changed = true;
        }
        t += 1;
    }
    changed
}

/// Nullable flags and FIRST sets of `g`: the least solution of their
/// equations.
#[verifier::rlimit(40)]
pub fn calculate_first_sets(g: &IndexedGrammar) -> (r: FirstSets)
    requires
        g.wf(),
    ensures
        r.least(g),
        r.first@.len() == g.nn(),
        forall|a: int| 0 <= a < g.nn() ==> (#[trigger] r.first@[a])@.len() == g.nt(),
{
    let nullable = calculate_nullable(g);
    let nn = g.nterms.len();
    let nt = g.terms.len();
    let mut first: Vec<Vec<bool>> = Vec::new();
    let mut i: usize = 0;
    while i < nn
        invariant
            i <= nn,
            first@.len() == i,
            forall|a: int| 0 <= a < i ==> (#[trigger] first@[a])@.len() == nt,
            forall|a: int, t: int| 0 <= a < i && 0 <= t < nt ==> !(#[trigger] first@[a]@[t]),
        decreases nn - i,
    {
        first.push(falses(nt));
        i += 1;
    }
    let ghost bound = (nn * nt) as int;
    proof {
        let v = first@.map_values(|row: Vec<bool>| row@);
        assert forall|f: Seq<Seq<bool>>| #[trigger] first_closed(g, nullable@, f) implies le2(v, f) by {
            assert forall|a: int| 0 <= a < v.len() implies le(#[trigger] v[a], f[a]) by {
                assert(v[a].len() == f[a].len());
            }
        }
    }
    let mut changed = true;
    while changed
        invariant
            g.wf(),
            nn == g.nn(),
            nt == g.nt(),
            bound == nn * nt,
            nullable_closed(g, nullable@),
            first@.len() == nn,
            forall|a: int| 0 <= a < nn ==> (#[trigger] first@[a])@.len() == nt,
            forall|f: Seq<Seq<bool>>| #[trigger] first_closed(g, nullable@, f) ==> le2(first@.map_values(|row: Vec<bool>| row@), f),
            !changed ==> first_closed(g, nullable@, first@.map_values(|row: Vec<bool>| row@)),
        decreases bound - count_true2(first@.map_values(|row: Vec<bool>| row@)) + if changed { 1int } else { 0int },
    {
        let ghost start = first@.map_values(|row: Vec<bool>| row@);
        proof {
            lemma_count_true2_bound(start, nt as nat);
        }
        changed = false;
        let mut r: usize = 0;
        while r < g.rules.len()
            invariant
                g.wf(),
                nn == g.nn(),
                nt == g.nt(),
                nullable_closed(g, nullable@),
                r <= g.rules@.len(),
                first@.len() == nn,
                forall|a: int| 0 <= a < nn ==> (#[trigger] first@[a])@.len() == nt,
                forall|f: Seq<Seq<bool>>| #[trigger] first_closed(g, nullable@, f) ==> le2(first@.map_values(|row: Vec<bool>| row@), f),
                le2(start, first@.map_values(|row: Vec<bool>| row@)),
                changed ==> count_true2(first@.map_values(|row: Vec<bool>| row@)) > count_true2(start),
                !changed ==> first@.map_values(|row: Vec<bool>| row@) == start,
                !changed ==> forall|q: int, k: int|
                    0 <= q < r && 0 <= k < g.rhs(q).len() && #[trigger] prefix_nullable(nullable@, g.rhs(q), k)
                        ==> contributes(start, g.lhs(q), #[trigger] g.rhs(q)[k]),
            decreases g.rules.len() - r,
        {
            let rule = &g.rules[r];
            let a = rule.left;
            assert(g.lhs(r as int) < g.nn());
            let mut k: usize = 0;
            let mut go = true;
            while go && k < rule.right.len()
                invariant
                    g.wf(),
                    nn == g.nn(),
                    nt == g.nt(),
                    r < g.rules@.len(),
                    rule == g.rules@[r as int],
                    a == g.lhs(r as int),
                    a < nn,
                    nullable_closed(g, nullable@),
                    k <= rule.right@.len(),
                    first@.len() == nn,
                    forall|a: int| 0 <= a < nn ==> (#[trigger] first@[a])@.len() == nt,
                    forall|f: Seq<Seq<bool>>| #[trigger] first_closed(g, nullable@, f) ==> le2(first@.map_values(|row: Vec<bool>| row@), f),
                    le2(start, first@.map_values(|row: Vec<bool>| row@)),
                    changed ==> count_true2(first@.map_values(|row: Vec<bool>| row@)) > count_true2(start),
                    !changed ==> first@.map_values(|row: Vec<bool>| row@) == start,
                    go ==> prefix_nullable(nullable@, g.rhs(r as int), k as int),
                    !go ==> k > 0 && !sym_nullable(nullable@, g.rhs(r as int)[k - 1]),
                    !changed ==> forall|q: int, k: int|
                        0 <= q < r && 0 <= k < g.rhs(q).len() && #[trigger] prefix_nullable(nullable@, g.rhs(q), k)
                            ==> contributes(start, g.lhs(q), #[trigger] g.rhs(q)[k]),
                    !changed ==> forall|j: int|
                        0 <= j < k && #[trigger] prefix_nullable(nullable@, g.rhs(r as int), j)
                            ==> contributes(start, a as int, g.rhs(r as int)[j]),
                decreases rule.right.len() - k,
            {
                let s = rule.right[k];
                assert(s == g.rhs(r as int)[k as int]);
                assert(g.sym_ok(g.rhs(r as int)[k as int]));
                let ghost before = first@.map_values(|row: Vec<bool>| row@);
                let mut grew = false;
                match s {
                    Sym::T(t) => {
                        if !first[a][t] {
                            proof {
                                lemma_count_true2_set(before, a as int, t as int);
                                lemma_count_true2_le(start, before);
                            }
                            set_cell(&mut first, a, t);
                            assert(first@.map_values(|row: Vec<bool>| row@) =~= before.update(a as int, before[a as int].update(t as int, true)));
                            changed = true;
                        }
                        go = false;
                    },
                    Sym::N(b) => {
                        if union_row(&mut first, a, b, nt) {
                            changed = true;
                            grew = true;
                        }
                        if !nullable[b] {
                            go = false;
                        }
                    },
                }
                proof {
                    let after = first@.map_values(|row: Vec<bool>| row@);
                    assert(after.len() == nn);
                    assert(le2(before, after)) by {
                        assert forall|c: int| 0 <= c < nn implies le(#[trigger] before[c], after[c]) by {
                            if c != a {
                                assert(after[c] == before[c]);
                            }
                        }
                    }
                    assert(le2(start, after)) by {
                        assert forall|c: int| 0 <= c < nn implies le(#[trigger] start[c], after[c]) by {
                            assert(le(start[c], before[c]));
                            assert(le(before[c], after[c]));
                        }
                    }
                    lemma_count_true2_le(before, after);
                    lemma_count_true2_le(start, before);
                    if grew {
                        lemma_count_true2_row(before, after, a as int);
                    }
                    assert forall|f: Seq<Seq<bool>>| #[trigger] first_closed(g, nullable@, f) implies le2(after, f) by {
                        assert(le2(before, f));
                        assert(contributes(f, a as int, g.rhs(r as int)[k as int]));
                        assert forall|c: int| 0 <= c < nn implies le(#[trigger] after[c], f[c]) by {
                            assert(le(before[c], f[c]));
                            if c == a {
                                match s {
                                    Sym::T(t) => {},
                                    Sym::N(b) => {
                                        assert(le(before[b as int], f[b as int]));
                                    },
                                }
                            } else {
                                assert(after[c] == before[c]);
                            }
                        }
                    }
                    if !changed {
                        assert(contributes(start, a as int, g.rhs(r as int)[k as int]));
                    }
                }
                k += 1;
            }
            proof {
                if !changed {
                    assert forall|q: int, j: int|
                        0 <= q < r + 1 && 0 <= j < g.rhs(q).len() && #[trigger] prefix_nullable(nullable@, g.rhs(q), j)
                            implies contributes(start, g.lhs(q), #[trigger] g.rhs(q)[j]) by {
                        if q == r && j >= k {
                            assert(sym_nullable(nullable@, g.rhs(r as int)[k - 1]));
                        }
                    }
                }
            }
            r += 1;
        }
        proof {
            lemma_count_true2_bound(first@.map_values(|row: Vec<bool>| row@), nt as nat);
        }
    }
    FirstSets { nullable, first }
}

/// A member of a FIRST set: a terminal, or the empty string.
#[derive(PartialEq, Eq, Hash, Debug, Clone)]
pub enum TerminalOrEmpty {
    Terminal(Terminal),
    Empty,
}

impl View for TerminalOrEmpty {
    /// The terminal's name, or `None` for the empty string.
    type V = Option<Seq<char>>;

    open spec fn view(&self) -> Option<Seq<char>> {
        match self {
            TerminalOrEmpty::Terminal(t) => Some(t@),
            TerminalOrEmpty::Empty => None,
        }
    }
}

/// `list` names, per non-terminal of `g`, its FIRST set: the empty string
/// when it is nullable, and each terminal that can begin what it derives.
pub open spec fn lists_first(g: &IndexedGrammar, fs: &FirstSets, list: Seq<(Nonterminal, Vec<TerminalOrEmpty>)>) -> bool {
    &&& list.len() == g.nn()
    &&& forall|a: int| 0 <= a < list.len() ==> (#[trigger] list[a]).0@ == g.nterms@[a]@
    &&& forall|a: int, x: Option<Seq<char>>| 0 <= a < list.len() ==> (#[trigger] in_list(list[a].1@, x) <==> in_first_set(g, fs, a, x))
}

pub open spec fn in_tail(s: Seq<TerminalOrEmpty>, from: int, name: Seq<char>) -> bool {
    exists|k: int| from <= k < s.len() && (#[trigger] s[k])@ == Some(name)
}

pub open spec fn first_upto(g: &IndexedGrammar, fs: &FirstSets, a: int, t: int, name: Seq<char>) -> bool {
    exists|u: int| 0 <= u < t && fs.first@[a]@[u] && #[trigger] g.terms@[u]@ == name
}

pub open spec fn in_list(s: Seq<TerminalOrEmpty>, x: Option<Seq<char>>) -> bool {
    exists|k: int| 0 <= k < s.len() && (#[trigger] s[k])@ == x
}

/// `x` is in FIRST of non-terminal `a`: `None` stands for the empty string.
pub open spec fn in_first_set(g: &IndexedGrammar, fs: &FirstSets, a: int, x: Option<Seq<char>>) -> bool {
    match x {
        None => fs.nullable@[a],
        Some(name) => exists|t: int| 0 <= t < g.nt() && fs.first@[a]@[t] && #[trigger] g.terms@[t]@ == name,
    }
}

/// FIRST sets of the non-terminals of `grammar`, which must hold a rule for
/// `ROOT`; each with the empty string when the non-terminal is nullable.
#[verifier::rlimit(40)]
pub fn calculate_first(grammar: &Grammar) -> (r: Vec<(Nonterminal, Vec<TerminalOrEmpty>)>)
    requires
        declared(grammar@, root_name()),
        grammar_size(grammar@.rules) < usize::MAX / 2,
    ensures
        exists|g: IndexedGrammar, fs: FirstSets| g.wf() && g.models(grammar@) && g.names_of(grammar@) && fs.least(&g) && #[trigger] lists_first(&g, &fs, r@),
{
    let g = IndexedGrammar::from_grammar(grammar);
    let fs = calculate_first_sets(&g);
    let mut res: Vec<(Nonterminal, Vec<TerminalOrEmpty>)> = Vec::new();
    let mut a: usize = 0;
    while a < g.nterms.len()
        invariant
            g.wf(),
            fs.least(&g),
            fs.first@.len() == g.nn(),
            forall|b: int| 0 <= b < g.nn() ==> (#[trigger] fs.first@[b])@.len() == g.nt(),
            a <= g.nn(),
            res@.len() == a,
            forall|b: int| 0 <= b < a ==> (#[trigger] res@[b]).0@ == g.nterms@[b]@,
            forall|b: int, x: Option<Seq<char>>| 0 <= b < a ==> (#[trigger] in_list(res@[b].1@, x) <==> in_first_set(&g, &fs, b, x)),
        decreases g.nterms.len() - a,
    {
        let mut set: Vec<TerminalOrEmpty> = Vec::new();
        if fs.nullable[a] {
            set.push(TerminalOrEmpty::Empty);
        }
        let ghost base = set@;
        let mut t: usize = 0;
        while t < g.terms.len()
            invariant
                g.wf(),
                a < g.nn(),
                fs.first@.len() == g.nn(),
                forall|b: int| 0 <= b < g.nn() ==> (#[trigger] fs.first@[b])@.len() == g.nt(),
                t <= g.nt(),
                set@.len() >= base.len(),
                set@.subrange(0, base.len() as int) == base,
                base.len() <= 1,
                base.len() == 1 <==> fs.nullable@[a as int],
                base.len() == 1 ==> base[0]@ is None,
                forall|k: int| base.len() <= k < set@.len() ==> (#[trigger] set@[k])@ is Some,
                forall|name: Seq<char>| #[trigger] in_tail(set@, base.len() as int, name) <==> first_upto(&g, &fs, a as int, t as int, name),
            decreases g.terms.len() - t,
        {
            let ghost before = set@;
            if fs.first[a][t] {
                set.push(TerminalOrEmpty::Terminal(Terminal(copy_string(&g.terms[t]))));
                assert(set@.subrange(0, base.len() as int) =~= before.subrange(0, base.len() as int));
            }
            proof {
                assert forall|name: Seq<char>| #[trigger] in_tail(set@, base.len() as int, name) <==> first_upto(&g, &fs, a as int, t + 1, name) by {
                    if in_tail(set@, base.len() as int, name) {
                        let k = choose|k: int| base.len() <= k < set@.len() && (#[trigger] set@[k])@ == Some(name);
                        if k < before.len() {
                            assert(before[k] == set@[k]);
                            assert(in_tail(before, base.len() as int, name));
                            let u = choose|u: int| 0 <= u < t && fs.first@[a as int]@[u] && #[trigger] g.terms@[u]@ == name;
                            assert(0 <= u < t + 1 && fs.first@[a as int]@[u] && g.terms@[u]@ == name);
                        } else {
                            assert(0 <= t < t + 1 && fs.first@[a as int]@[t as int] && g.terms@[t as int]@ == name);
                        }
                    }
                    if first_upto(&g, &fs, a as int, t + 1, name) {
                        let u = choose|u: int| 0 <= u < t + 1 && fs.first@[a as int]@[u] && #[trigger] g.terms@[u]@ == name;
                        if u < t {
                            assert(first_upto(&g, &fs, a as int, t as int, name));
                            assert(in_tail(before, base.len() as int, name));
                            let k = choose|k: int| base.len() <= k < before.len() && (#[trigger] before[k])@ == Some(name);
                            assert(set@[k] == before[k]);
                        } else {
                            assert(set@[before.len() as int]@ == Some(name));
                        }
                    }
                }
            }
            t += 1;
        }
        let ghost final_set = set@;
        res.push((Nonterminal(copy_string(&g.nterms[a])), set));
        proof {
            assert forall|b: int, x: Option<Seq<char>>| 0 <= b < a + 1 implies (#[trigger] in_list(res@[b].1@, x) <==> in_first_set(&g, &fs, b, x)) by {
                if b == a {
                    assert(res@[b].1@ == final_set);
                    match x {
                        None => {
                            if fs.nullable@[b] {
                                assert(final_set[0] == base[0]);
                                assert(final_set[0]@ == x);
                            }
                            if in_list(final_set, x) {
                                let k = choose|k: int| 0 <= k < final_set.len() && (#[trigger] final_set[k])@ == x;
                                if k >= base.len() {
                                    assert(final_set[k]@ is Some);
                                }
                                assert(k < base.len());
                                assert(final_set[k] == base[k]);
                            }
                        },
                        Some(name) => {
                            if in_list(final_set, x) {
                                let k = choose|k: int| 0 <= k < final_set.len() && (#[trigger] final_set[k])@ == x;
                                if k < base.len() {
                                    assert(final_set[k] == base[k]);
                                }
                                assert(in_tail(final_set, base.len() as int, name));
                                assert(first_upto(&g, &fs, b, g.nt() as int, name));
                            }
                            if in_first_set(&g, &fs, b, x) {
                                assert(first_upto(&g, &fs, b, g.nt() as int, name));
                                assert(in_tail(final_set, base.len() as int, name));
                                let k = choose|k: int| base.len() <= k < final_set.len() && (#[trigger] final_set[k])@ == Some(name);
                                assert(in_list(final_set, x));
                            }
                        },
                    }
                }
            }
        }
        a += 1;
    }
    proof {
        assert(lists_first(&g, &fs, res@));
    }
    res
}

} // verus!
