//! A grammar with its names replaced by indices: the form on which the
//! analyses and the automata work.

use vstd::prelude::*;
use crate::grammar::{
    Grammar, GrammarV, Nonterminal, Rule, RuleV, SymV, Term, Terminal, copy_string, declared, root_name,
};

verus! {

#[derive(Clone, Copy, PartialEq, Eq, Structural, Debug)]
pub enum Sym {
    T(usize),
    N(usize),
}

#[derive(Debug)]
pub struct IRule {
    pub left: usize,
    pub right: Vec<Sym>,
}

/// Rules over indices into two lists of distinct names.
#[derive(Debug)]
pub struct IndexedGrammar {
    pub nterms: Vec<String>,
    pub terms: Vec<String>,
    pub rules: Vec<IRule>,
    /// Index of the first rule whose left side is `ROOT`.
    pub root_rule: usize,
}

pub open spec fn distinct_names(s: Seq<String>) -> bool {
    forall|i: int, j: int| 0 <= i < j < s.len() ==> s[i]@ != s[j]@
}

impl IndexedGrammar {
    pub open spec fn nn(&self) -> nat {
        self.nterms@.len()
    }

    pub open spec fn nt(&self) -> nat {
        self.terms@.len()
    }

    pub open spec fn rhs(&self, r: int) -> Seq<Sym> {
        self.rules@[r].right@
    }

    pub open spec fn lhs(&self, r: int) -> int {
        self.rules@[r].left as int
    }

    pub open spec fn sym_ok(&self, s: Sym) -> bool {
        match s {
            Sym::T(t) => t < self.nt(),
            Sym::N(n) => n < self.nn(),
        }
    }

    pub open spec fn sym_view(&self, s: Sym) -> SymV {
        match s {
            Sym::T(t) => SymV::T(self.terms@[t as int]@),
            Sym::N(n) => SymV::N(self.nterms@[n as int]@),
        }
    }

    pub open spec fn rule_view(&self, r: int) -> RuleV {
        RuleV {
            left: self.nterms@[self.lhs(r)]@,
            right: self.rhs(r).map_values(|s: Sym| self.sym_view(s)),
        }
    }

    /// Number of symbols in the rules, counting each left side.
    pub open spec fn size(&self) -> nat {
        rules_size(self.rules@)
    }

    /// Indices in range, names distinct, `root_rule` a rule of `ROOT`.
    pub open spec fn wf(&self) -> bool {
        &&& distinct_names(self.nterms@)
        &&& distinct_names(self.terms@)
        &&& forall|r: int| 0 <= r < self.rules@.len() ==> self.lhs(r) < self.nn()
        &&& forall|r: int, k: int| 0 <= r < self.rules@.len() && 0 <= k < self.rhs(r).len() ==> self.sym_ok(#[trigger] self.rhs(r)[k])
        &&& self.root_rule < self.rules@.len()
        &&& self.nterms@[self.lhs(self.root_rule as int)]@ == root_name()
        &&& self.nn() + self.nt() + 1 < usize::MAX
    }

    /// The indexed rules are the rules of `g`, in order.
    pub open spec fn models(&self, g: GrammarV) -> bool {
        &&& self.rules@.len() == g.rules.len()
        &&& forall|r: int| 0 <= r < g.rules.len() ==> self.rule_view(r) == #[trigger] g.rules[r]
    }
}

/// Number of symbols in a list of indexed rules, counting each left side.
pub open spec fn rules_size(rules: Seq<IRule>) -> nat
    decreases rules.len(),
{
    if rules.len() == 0 {
        0
    } else {
        rules_size(rules.drop_last()) + 1 + rules.last().right@.len()
    }
}

/// Number of symbols in a list of rules, counting each left side.
pub open spec fn grammar_size(rules: Seq<RuleV>) -> nat
    decreases rules.len(),
{
    if rules.len() == 0 {
        0
    } else {
        grammar_size(rules.drop_last()) + 1 + rules.last().right.len()
    }
}

pub proof fn lemma_grammar_size_step(rules: Seq<RuleV>, i: int)
    requires
        0 <= i < rules.len(),
    ensures
        grammar_size(rules.subrange(0, i + 1)) == grammar_size(rules.subrange(0, i)) + 1 + rules[i].right.len(),
{
    assert(rules.subrange(0, i + 1).drop_last() =~= rules.subrange(0, i));
}

pub proof fn lemma_grammar_size_prefix(rules: Seq<RuleV>, i: int)
    requires
        0 <= i <= rules.len(),
    ensures
        grammar_size(rules.subrange(0, i)) <= grammar_size(rules),
    decreases rules.len() - i,
{
    if i < rules.len() {
        lemma_grammar_size_step(rules, i);
        lemma_grammar_size_prefix(rules, i + 1);
    } else {
        assert(rules.subrange(0, i) =~= rules);
    }
}

/// Non-terminal `n` is a left side of `g` or stands on a right side.
pub open spec fn nterm_in(g: GrammarV, n: Seq<char>) -> bool {
    exists|r: int| 0 <= r < g.rules.len() && (g.rules[r].left == n || exists|k: int| 0 <= k < g.rules[r].right.len() && #[trigger] g.rules[r].right[k] == SymV::N(n))
}

/// Terminal `t` stands on a right side of `g`.
pub open spec fn term_in(g: GrammarV, t: Seq<char>) -> bool {
    exists|r: int, k: int| 0 <= r < g.rules.len() && 0 <= k < g.rules[r].right.len() && #[trigger] g.rules[r].right[k] == SymV::T(t)
}

impl IndexedGrammar {
    /// The names listed are exactly those that `g` uses.
    pub open spec fn names_of(&self, g: GrammarV) -> bool {
        &&& forall|a: int| 0 <= a < self.nn() ==> nterm_in(g, #[trigger] self.nterms@[a]@)
        &&& forall|t: int| 0 <= t < self.nt() ==> term_in(g, #[trigger] self.terms@[t]@)
    }
}

/// Position of `s` in `names`, if it is there.
pub fn index_of(names: &Vec<String>, s: &String) -> (r: Option<usize>)
    ensures
        match r {
            Some(i) => i < names@.len() && names@[i as int]@ == s@,
            None => forall|i: int| 0 <= i < names@.len() ==> names@[i]@ != s@,
        },
{
    let mut i: usize = 0;
    while i < names.len()
        invariant
            i <= names.len(),
            forall|j: int| 0 <= j < i ==> names@[j]@ != s@,
        decreases names.len() - i,
    {
        if names[i] == *s {
            return Some(i);
        }
        i += 1;
    }
    None
}

/// Position of `s` in `names`, appending it when it is not there.
pub fn intern(names: &mut Vec<String>, s: &String) -> (r: usize)
    requires
        distinct_names(old(names)@),
    ensures
        distinct_names(final(names)@),
        r < final(names)@.len(),
        final(names)@[r as int]@ == s@,
        final(names)@.len() <= old(names)@.len() + 1,
        final(names)@.len() >= old(names)@.len(),
        forall|i: int| 0 <= i < old(names)@.len() ==> final(names)@[i] == old(names)@[i],
        forall|i: int| old(names)@.len() <= i < final(names)@.len() ==> final(names)@[i]@ == s@,
{
    match index_of(names, s) {
        Some(i) => i,
        None => {
            names.push(copy_string(s));
            names.len() - 1
        },
    }
}

impl IndexedGrammar {
    /// Indexes the rules of `grammar`, which must hold a rule for `ROOT`.
    #[verifier::rlimit(40)]
    pub fn from_grammar(grammar: &Grammar) -> (r: IndexedGrammar)
        requires
            declared(grammar@, root_name()),
            grammar_size(grammar@.rules) < usize::MAX / 2,
        ensures
            r.wf(),
            r.models(grammar@),
            r.size() == grammar_size(grammar@.rules),
            r.nn() + r.nt() <= r.size(),
            r.names_of(grammar@),
    {
        let ghost g = grammar@;
        let mut nterms: Vec<String> = Vec::new();
        let mut terms: Vec<String> = Vec::new();
        let mut rules: Vec<IRule> = Vec::new();
        let mut root_rule: Option<usize> = None;
        let root = crate::grammar::root_nonterminal();
        let mut i: usize = 0;
        while i < grammar.rules.len()
            invariant
                g == grammar@,
                i <= grammar.rules.len(),
                grammar_size(g.rules) < usize::MAX / 2,
                root@ == root_name(),
                forall|a: int| 0 <= a < nterms@.len() ==> nterm_in(g, #[trigger] nterms@[a]@),
                forall|t: int| 0 <= t < terms@.len() ==> term_in(g, #[trigger] terms@[t]@),
                distinct_names(nterms@),
                distinct_names(terms@),
                rules@.len() == i,
                nterms@.len() + terms@.len() <= grammar_size(g.rules.subrange(0, i as int)),
                rules_size(rules@) == grammar_size(g.rules.subrange(0, i as int)),
                forall|r: int| 0 <= r < i ==> rules@[r].left < nterms@.len(),
                forall|r: int, k: int| 0 <= r < i && 0 <= k < rules@[r].right@.len() ==> match #[trigger] rules@[r].right@[k] {
                    Sym::T(t) => t < terms@.len(),
                    Sym::N(n) => n < nterms@.len(),
                },
                forall|r: int| 0 <= r < i ==> nterms@[rules@[r].left as int]@ == #[trigger] g.rules[r].left,
                forall|r: int| 0 <= r < i ==> rules@[r].right@.len() == #[trigger] g.rules[r].right.len(),
                forall|r: int, k: int| 0 <= r < i && 0 <= k < rules@[r].right@.len() ==> match #[trigger] rules@[r].right@[k] {
                    Sym::T(t) => g.rules[r].right[k] == SymV::T(terms@[t as int]@),
                    Sym::N(n) => g.rules[r].right[k] == SymV::N(nterms@[n as int]@),
                },
                match root_rule {
                    Some(x) => x < i && g.rules[x as int].left == root_name(),
                    None => forall|r: int| 0 <= r < i ==> g.rules[r].left != root_name(),
                },
            decreases grammar.rules.len() - i,
        {
            let rule = &grammar.rules[i];
            assert(g.rules[i as int] == rule@);
            proof {
                lemma_grammar_size_step(g.rules, i as int);
                lemma_grammar_size_prefix(g.rules, i as int + 1);
            }
            let ghost old_nt = nterms@;
            let left = intern(&mut nterms, &rule.left.0);
            assert forall|a: int| 0 <= a < nterms@.len() implies nterm_in(g, #[trigger] nterms@[a]@) by {
                if a < old_nt.len() {
                    assert(nterms@[a] == old_nt[a]);
                } else {
                    assert(g.rules[i as int].left == nterms@[a]@);
                }
            }
            let mut right: Vec<Sym> = Vec::new();
            let mut k: usize = 0;
            while k < rule.right.len()
                invariant
                    g == grammar@,
                    i < grammar.rules.len(),
                    rule == grammar.rules@[i as int],
                    g.rules[i as int] == rule@,
                    grammar_size(g.rules) < usize::MAX / 2,
                    root@ == root_name(),
                    forall|a: int| 0 <= a < nterms@.len() ==> nterm_in(g, #[trigger] nterms@[a]@),
                    forall|t: int| 0 <= t < terms@.len() ==> term_in(g, #[trigger] terms@[t]@),
                    k <= rule.right.len(),
                    right@.len() == k,
                    rules@.len() == i,
                    rules_size(rules@) == grammar_size(g.rules.subrange(0, i as int)),
                    distinct_names(nterms@),
                    distinct_names(terms@),
                    left < nterms@.len(),
                    nterms@[left as int]@ == rule.left@,
                    nterms@.len() + terms@.len() <= grammar_size(g.rules.subrange(0, i as int)) + 1 + k,
                    forall|r: int| 0 <= r < i ==> rules@[r].left < nterms@.len(),
                    forall|r: int, k: int| 0 <= r < i && 0 <= k < rules@[r].right@.len() ==> match #[trigger] rules@[r].right@[k] {
                        Sym::T(t) => t < terms@.len(),
                        Sym::N(n) => n < nterms@.len(),
                    },
                    forall|r: int| 0 <= r < i ==> nterms@[rules@[r].left as int]@ == #[trigger] g.rules[r].left,
                    forall|r: int, k: int| 0 <= r < i && 0 <= k < rules@[r].right@.len() ==> match #[trigger] rules@[r].right@[k] {
                        Sym::T(t) => g.rules[r].right[k] == SymV::T(terms@[t as int]@),
                        Sym::N(n) => g.rules[r].right[k] == SymV::N(nterms@[n as int]@),
                    },
                    forall|j: int| 0 <= j < k ==> match #[trigger] right@[j] {
                        Sym::T(t) => t < terms@.len() && rule@.right[j] == SymV::T(terms@[t as int]@),
                        Sym::N(n) => n < nterms@.len() && rule@.right[j] == SymV::N(nterms@[n as int]@),
                    },
                decreases rule.right.len() - k,
            {
                let s = match &rule.right[k] {
                    Term::Terminal(t) => {
                        let ghost old_t = terms@;
                        let x = intern(&mut terms, &t.0);
                        assert forall|a: int| 0 <= a < terms@.len() implies term_in(g, #[trigger] terms@[a]@) by {
                            if a < old_t.len() {
                                assert(terms@[a] == old_t[a]);
                            } else {
                                assert(g.rules[i as int].right[k as int] == SymV::T(terms@[a]@));
                            }
                        }
                        Sym::T(x)
                    },
                    Term::Nonterminal(n) => {
                        let ghost old_n = nterms@;
                        let x = intern(&mut nterms, &n.0);
                        assert forall|a: int| 0 <= a < nterms@.len() implies nterm_in(g, #[trigger] nterms@[a]@) by {
                            if a < old_n.len() {
                                assert(nterms@[a] == old_n[a]);
                            } else {
                                assert(g.rules[i as int].right[k as int] == SymV::N(nterms@[a]@));
                            }
                        }
                        Sym::N(x)
                    },
                };
                right.push(s);
                k += 1;
            }
            assert(g.rules.subrange(0, i + 1).drop_last() =~= g.rules.subrange(0, i as int));
            if root_rule.is_none() && rule.left.same(&root) {
                root_rule = Some(i);
            }
            let ghost old_rules = rules@;
            rules.push(IRule { left, right });
            assert(rules@.drop_last() =~= old_rules);
            i += 1;
        }
        let root_rule = match root_rule {
            Some(x) => x,
            None => 0,
        };
        assert(g.rules.subrange(0, i as int) =~= g.rules);
        let r = IndexedGrammar { nterms, terms, rules, root_rule };
        assert forall|x: int| 0 <= x < g.rules.len() implies r.rule_view(x) == #[trigger] g.rules[x] by {
            assert(r.rules@[x].right@.len() == g.rules[x].right.len());
            assert forall|k: int| 0 <= k < g.rules[x].right.len() implies r.rule_view(x).right[k] == g.rules[x].right[k] by {
                let sk = r.rules@[x].right@[k];
                assert(r.rhs(x)[k] == sk);
                match sk {
                    Sym::T(t) => assert(g.rules[x].right[k] == SymV::T(r.terms@[t as int]@)),
                    Sym::N(n) => assert(g.rules[x].right[k] == SymV::N(r.nterms@[n as int]@)),
                }
            }
            assert(r.rule_view(x).left == g.rules[x].left);
            assert(r.rule_view(x).right =~= g.rules[x].right);
        }
        r
    }
}

impl IndexedGrammar {
    /// The same rules and names in the same order.
    pub open spec fn same_as(&self, o: &IndexedGrammar) -> bool {
        &&& self.nterms@.len() == o.nterms@.len()
        &&& forall|i: int| 0 <= i < self.nterms@.len() ==> (#[trigger] self.nterms@[i])@ == o.nterms@[i]@
        &&& self.terms@.len() == o.terms@.len()
        &&& forall|i: int| 0 <= i < self.terms@.len() ==> (#[trigger] self.terms@[i])@ == o.terms@[i]@
        &&& self.rules@.len() == o.rules@.len()
        &&& forall|r: int| 0 <= r < self.rules@.len() ==> (#[trigger] self.rules@[r]).left == o.rules@[r].left && self.rules@[r].right@ == o.rules@[r].right@
        &&& self.root_rule == o.root_rule
    }

    /// A copy with the same names and rules.
    pub fn duplicate(&self) -> (r: IndexedGrammar)
        requires
            self.wf(),
        ensures
            r.same_as(self),
            r.wf(),
    {
        let mut nterms: Vec<String> = Vec::new();
        let mut i: usize = 0;
        while i < self.nterms.len()
            invariant
                i <= self.nterms@.len(),
                nterms@.len() == i,
                forall|j: int| 0 <= j < i ==> (#[trigger] nterms@[j])@ == self.nterms@[j]@,
            decreases self.nterms.len() - i,
        {
            nterms.push(copy_string(&self.nterms[i]));
            i += 1;
        }
        let mut terms: Vec<String> = Vec::new();
        let mut i: usize = 0;
        while i < self.terms.len()
            invariant
                i <= self.terms@.len(),
                terms@.len() == i,
                forall|j: int| 0 <= j < i ==> (#[trigger] terms@[j])@ == self.terms@[j]@,
            decreases self.terms.len() - i,
        {
            terms.push(copy_string(&self.terms[i]));
            i += 1;
        }
        let mut rules: Vec<IRule> = Vec::new();
        let mut i: usize = 0;
        while i < self.rules.len()
            invariant
                i <= self.rules@.len(),
                rules@.len() == i,
                forall|r: int| 0 <= r < i ==> (#[trigger] rules@[r]).left == self.rules@[r].left && rules@[r].right@ == self.rules@[r].right@,
            decreases self.rules.len() - i,
        {
            let src = &self.rules[i].right;
            let mut right: Vec<Sym> = Vec::new();
            let mut k: usize = 0;
            while k < src.len()
                invariant
                    k <= src@.len(),
                    right@ == src@.subrange(0, k as int),
                decreases src.len() - k,
            {
                right.push(src[k]);
                k += 1;
                assert(right@ =~= src@.subrange(0, k as int));
            }
            assert(src@.subrange(0, src@.len() as int) =~= src@);
            rules.push(IRule { left: self.rules[i].left, right });
            i += 1;
        }
        let r = IndexedGrammar { nterms, terms, rules, root_rule: self.root_rule };
        assert(distinct_names(r.nterms@)) by {
            assert forall|i: int, j: int| 0 <= i < j < r.nterms@.len() implies r.nterms@[i]@ != r.nterms@[j]@ by {
                assert(self.nterms@[i]@ != self.nterms@[j]@);
            }
        }
        assert(distinct_names(r.terms@)) by {
            assert forall|i: int, j: int| 0 <= i < j < r.terms@.len() implies r.terms@[i]@ != r.terms@[j]@ by {
                assert(self.terms@[i]@ != self.terms@[j]@);
            }
        }
        assert forall|x: int| 0 <= x < r.rules@.len() implies r.lhs(x) < r.nn() by {
            assert(self.lhs(x) < self.nn());
        }
        assert(r.wf()) by {
            assert forall|x: int, k: int| 0 <= x < r.rules@.len() && 0 <= k < r.rhs(x).len() implies r.sym_ok(#[trigger] r.rhs(x)[k]) by {
                assert(self.sym_ok(self.rhs(x)[k]));
            }
            assert(r.nterms@[r.lhs(r.root_rule as int)]@ == self.nterms@[self.lhs(self.root_rule as int)]@);
        }
        r
    }

    /// Rule `r` with its names.
    pub fn rule_value(&self, r: usize) -> (res: Rule)
        requires
            self.wf(),
            r < self.rules@.len(),
        ensures
            res@ == self.rule_view(r as int),
    {
        let rule = &self.rules[r];
        let mut right: Vec<Term> = Vec::new();
        let mut k: usize = 0;
        while k < rule.right.len()
            invariant
                self.wf(),
                r < self.rules@.len(),
                rule == self.rules@[r as int],
                k <= rule.right@.len(),
                right@.len() == k,
                forall|j: int| 0 <= j < k ==> (#[trigger] right@[j])@ == self.sym_view(self.rhs(r as int)[j]),
            decreases rule.right.len() - k,
        {
            assert(self.sym_ok(self.rhs(r as int)[k as int]));
            let t = match rule.right[k] {
                Sym::T(t) => Term::Terminal(Terminal(copy_string(&self.terms[t]))),
                Sym::N(n) => Term::Nonterminal(Nonterminal(copy_string(&self.nterms[n]))),
            };
            right.push(t);
            k += 1;
        }
        assert(self.lhs(r as int) < self.nn());
        let res = Rule { left: Nonterminal(copy_string(&self.nterms[rule.left])), right };
        assert(res@.right =~= self.rule_view(r as int).right);
        res
    }

    /// Rule `r` is a rule of `ROOT`.
    pub fn is_root_rule(&self, r: usize) -> (res: bool)
        requires
            self.wf(),
            r < self.rules@.len(),
        ensures
            res == (self.rule_view(r as int).left == root_name()),
    {
        assert(self.lhs(r as int) < self.nn());
        let root = crate::grammar::root_nonterminal();
        self.nterms[self.rules[r].left] == root.0
    }
}

} // verus!
