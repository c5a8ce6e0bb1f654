//! Symbols, rules, grammars, tokens, parse tables and parse trees, with the
//! mathematical views that the contracts of the library speak of.

use vstd::prelude::*;

verus! {

/// Name of the synthetic non-terminal that augmentation puts on top of a grammar.
pub const GRAMMAR_ROOT_NAME: &'static str = "ROOT";

pub open spec fn root_name() -> Seq<char> {
    seq!['R', 'O', 'O', 'T']
}

/// The non-terminal that augmentation puts on top of a grammar.
pub fn root_nonterminal() -> (r: Nonterminal)
    ensures
        r@ == root_name(),
{
    proof {
        reveal_strlit("ROOT");
    }
    let s = str_to_string(GRAMMAR_ROOT_NAME);
    assert(s@ =~= root_name());
    Nonterminal(s)
}

#[derive(PartialEq, Eq, Hash, Clone, Debug, PartialOrd, Ord)]
pub struct Nonterminal(pub String);

#[derive(PartialEq, Eq, Hash, Clone, Debug, PartialOrd, Ord)]
pub struct Terminal(pub String);

#[derive(PartialEq, Eq, Hash, Clone, Debug, PartialOrd, Ord)]
pub enum Term {
    Nonterminal(Nonterminal),
    Terminal(Terminal),
}

#[derive(PartialEq, Eq, Hash, Debug, Clone, PartialOrd, Ord)]
pub struct Rule {
    pub left: Nonterminal,
    pub right: Vec<Term>,
}

#[derive(PartialEq, Eq, Hash, Debug, Clone, PartialOrd, Ord)]
pub enum TerminalOrFinish {
    Terminal(Terminal),
    Finish,
}

#[derive(PartialEq, Eq, Debug, Clone)]
pub enum LR1Action {
    Reduce(Rule),
    Shift(i32),
    Accept,
}

/// A grammar symbol as a value: a terminal or a non-terminal name.
pub enum SymV {
    T(Seq<char>),
    N(Seq<char>),
}

/// A rule as a value.
pub struct RuleV {
    pub left: Seq<char>,
    pub right: Seq<SymV>,
}

/// A token tag as a value: a terminal name or the end marker.
pub enum TagV {
    T(Seq<char>),
    End,
}

/// A parse action as a value.
pub enum ActionV {
    Reduce(RuleV),
    Shift(int),
    Accept,
}

impl View for Nonterminal {
    type V = Seq<char>;

    open spec fn view(&self) -> Seq<char> {
        self.0@
    }
}

impl View for Terminal {
    type V = Seq<char>;

    open spec fn view(&self) -> Seq<char> {
        self.0@
    }
}

impl View for Term {
    type V = SymV;

    open spec fn view(&self) -> SymV {
        match self {
            Term::Nonterminal(n) => SymV::N(n@),
            Term::Terminal(t) => SymV::T(t@),
        }
    }
}

pub open spec fn terms_view(s: Seq<Term>) -> Seq<SymV> {
    s.map_values(|t: Term| t@)
}

impl View for Rule {
    type V = RuleV;

    open spec fn view(&self) -> RuleV {
        RuleV { left: self.left@, right: terms_view(self.right@) }
    }
}

impl View for TerminalOrFinish {
    type V = TagV;

    open spec fn view(&self) -> TagV {
        match self {
            TerminalOrFinish::Terminal(t) => TagV::T(t@),
            TerminalOrFinish::Finish => TagV::End,
        }
    }
}

impl View for LR1Action {
    type V = ActionV;

    open spec fn view(&self) -> ActionV {
        match self {
            LR1Action::Reduce(r) => ActionV::Reduce(r@),
            LR1Action::Shift(s) => ActionV::Shift(*s as int),
            LR1Action::Accept => ActionV::Accept,
        }
    }
}

pub fn copy_string(s: &String) -> (r: String)
    ensures
        r@ == s@,
{
    s.clone()
}

pub fn str_to_string(s: &str) -> (r: String)
    ensures
        r@ == s@,
{
    s.to_string()
}

impl Nonterminal {
    pub fn cloned(&self) -> (r: Nonterminal)
        ensures
            r@ == self@,
    {
        Nonterminal(copy_string(&self.0))
    }

    pub fn same(&self, o: &Nonterminal) -> (r: bool)
        ensures
            r == (self@ == o@),
    {
        self.0 == o.0
    }
}

impl Terminal {
    pub fn cloned(&self) -> (r: Terminal)
        ensures
            r@ == self@,
    {
        Terminal(copy_string(&self.0))
    }

    pub fn same(&self, o: &Terminal) -> (r: bool)
        ensures
            r == (self@ == o@),
    {
        self.0 == o.0
    }
}

impl Term {
    pub fn cloned(&self) -> (r: Term)
        ensures
            r@ == self@,
    {
        match self {
            Term::Nonterminal(n) => Term::Nonterminal(n.cloned()),
            Term::Terminal(t) => Term::Terminal(t.cloned()),
        }
    }

    pub fn same(&self, o: &Term) -> (r: bool)
        ensures
            r == (self@ == o@),
    {
        match (self, o) {
            (Term::Nonterminal(a), Term::Nonterminal(b)) => a.same(b),
            (Term::Terminal(a), Term::Terminal(b)) => a.same(b),
            _ => false,
        }
    }
}

pub fn clone_terms(v: &Vec<Term>) -> (r: Vec<Term>)
    ensures
        terms_view(r@) == terms_view(v@),
{
    let mut r: Vec<Term> = Vec::new();
    let mut i: usize = 0;
    while i < v.len()
        invariant
            i <= v.len(),
            r@.len() == i,
            forall|j: int| 0 <= j < i ==> r@[j]@ == v@[j]@,
        decreases v.len() - i,
    {
        r.push(v[i].cloned());
        i += 1;
    }
    assert(terms_view(r@) =~= terms_view(v@));
    r
}

pub fn same_terms(a: &Vec<Term>, b: &Vec<Term>) -> (r: bool)
    ensures
        r == (terms_view(a@) == terms_view(b@)),
{
    if a.len() != b.len() {
        assert(terms_view(a@).len() != terms_view(b@).len());
        return false;
    }
    let mut i: usize = 0;
    while i < a.len()
        invariant
            i <= a.len(),
            a.len() == b.len(),
            forall|j: int| 0 <= j < i ==> a@[j]@ == b@[j]@,
        decreases a.len() - i,
    {
        if !a[i].same(&b[i]) {
            assert(terms_view(a@)[i as int] != terms_view(b@)[i as int]);
            return false;
        }
        i += 1;
    }
    assert(terms_view(a@) =~= terms_view(b@));
    true
}

impl Rule {
    pub fn cloned(&self) -> (r: Rule)
        ensures
            r@ == self@,
    {
        Rule { left: self.left.cloned(), right: clone_terms(&self.right) }
    }

    pub fn same(&self, o: &Rule) -> (r: bool)
        ensures
            r == (self@ == o@),
    {
        self.left.same(&o.left) && same_terms(&self.right, &o.right)
    }
}

impl TerminalOrFinish {
    pub fn cloned(&self) -> (r: TerminalOrFinish)
        ensures
            r@ == self@,
    {
        match self {
            TerminalOrFinish::Terminal(t) => TerminalOrFinish::Terminal(t.cloned()),
            TerminalOrFinish::Finish => TerminalOrFinish::Finish,
        }
    }

    pub fn same(&self, o: &TerminalOrFinish) -> (r: bool)
        ensures
            r == (self@ == o@),
    {
        match (self, o) {
            (TerminalOrFinish::Terminal(a), TerminalOrFinish::Terminal(b)) => a.same(b),
            (TerminalOrFinish::Finish, TerminalOrFinish::Finish) => true,
            _ => false,
        }
    }

    /// The terminal of a tag, if it is not the end marker.
    pub fn as_terminal(&self) -> (r: Option<&Terminal>)
        ensures
            match self {
                TerminalOrFinish::Terminal(t) => r == Some(t),
                TerminalOrFinish::Finish => r is None,
            },
    {
        match self {
            TerminalOrFinish::Terminal(t) => Some(t),
            TerminalOrFinish::Finish => None,
        }
    }
}

impl LR1Action {
    pub fn cloned(&self) -> (r: LR1Action)
        ensures
            r@ == self@,
    {
        match self {
            LR1Action::Reduce(rule) => LR1Action::Reduce(rule.cloned()),
            LR1Action::Shift(s) => LR1Action::Shift(*s),
            LR1Action::Accept => LR1Action::Accept,
        }
    }

    pub fn same(&self, o: &LR1Action) -> (r: bool)
        ensures
            r == (self@ == o@),
    {
        match (self, o) {
            (LR1Action::Reduce(a), LR1Action::Reduce(b)) => a.same(b),
            (LR1Action::Shift(a), LR1Action::Shift(b)) => *a == *b,
            (LR1Action::Accept, LR1Action::Accept) => true,
            _ => false,
        }
    }
}

} // verus!

verus! {

#[derive(Clone, PartialEq, Eq, Debug)]
pub struct Token<T> {
    pub tag: TerminalOrFinish,
    pub attribute: T,
}

#[derive(Debug)]
pub enum ParseTree<T> {
    Internal(Nonterminal, Vec<ParseTree<T>>),
    Leaf(Token<T>),
}

#[derive(Debug)]
pub struct ParseError<T> {
    pub token: Token<T>,
}

/// The ACTION and GOTO tables of a shift-reduce parser. Each table is a list
/// of entries; a lookup takes the first entry whose key matches.
#[derive(PartialEq, Eq, Debug)]
pub struct ParseTables {
    pub start: i32,
    pub action: Vec<((i32, TerminalOrFinish), LR1Action)>,
    pub goto: Vec<((i32, Nonterminal), i32)>,
}

pub struct TablesV {
    pub start: int,
    pub action: Seq<((int, TagV), ActionV)>,
    pub goto: Seq<((int, Seq<char>), int)>,
}

pub open spec fn action_entry_view(e: ((i32, TerminalOrFinish), LR1Action)) -> ((int, TagV), ActionV) {
    ((e.0.0 as int, e.0.1@), e.1@)
}

pub open spec fn goto_entry_view(e: ((i32, Nonterminal), i32)) -> ((int, Seq<char>), int) {
    ((e.0.0 as int, e.0.1@), e.1 as int)
}

impl View for ParseTables {
    type V = TablesV;

    open spec fn view(&self) -> TablesV {
        TablesV {
            start: self.start as int,
            action: self.action@.map_values(|e: ((i32, TerminalOrFinish), LR1Action)| action_entry_view(e)),
            goto: self.goto@.map_values(|e: ((i32, Nonterminal), i32)| goto_entry_view(e)),
        }
    }
}

/// The action of the first entry with key `(q, t)`.
pub open spec fn lookup_action(s: Seq<((int, TagV), ActionV)>, q: int, t: TagV) -> Option<ActionV>
    decreases s.len(),
{
    if s.len() == 0 {
        None
    } else if s[0].0 == (q, t) {
        Some(s[0].1)
    } else {
        lookup_action(s.drop_first(), q, t)
    }
}

/// The target of the first entry with key `(q, n)`.
pub open spec fn lookup_goto(s: Seq<((int, Seq<char>), int)>, q: int, n: Seq<char>) -> Option<int>
    decreases s.len(),
{
    if s.len() == 0 {
        None
    } else if s[0].0 == (q, n) {
        Some(s[0].1)
    } else {
        lookup_goto(s.drop_first(), q, n)
    }
}

/// No two entries of a table share a key.
pub open spec fn keys_unique<K, V>(s: Seq<(K, V)>) -> bool {
    forall|i: int, j: int| 0 <= i < j < s.len() ==> s[i].0 != s[j].0
}

pub proof fn lemma_lookup_action_unique(s: Seq<((int, TagV), ActionV)>, i: int)
    requires
        keys_unique(s),
        0 <= i < s.len(),
    ensures
        lookup_action(s, s[i].0.0, s[i].0.1) == Some(s[i].1),
    decreases s.len(),
{
    if i > 0 {
        assert(s[0].0 != s[i].0);
        assert(s.drop_first()[i - 1] == s[i]);
        lemma_lookup_action_unique(s.drop_first(), i - 1);
    }
}

impl ParseTables {
    /// The action of the first entry with key `(state, tag)`.
    pub fn find_action(&self, state: i32, tag: &TerminalOrFinish) -> (r: Option<&LR1Action>)
        ensures
            match r {
                Some(a) => lookup_action(self@.action, state as int, tag@) == Some(a@),
                None => lookup_action(self@.action, state as int, tag@) is None,
            },
    {
        let ghost s = self@.action;
        assert(s.subrange(0, s.len() as int) =~= s);
        let mut i: usize = 0;
        while i < self.action.len()
            invariant
                i <= self.action.len(),
                s == self@.action,
                lookup_action(s, state as int, tag@) == lookup_action(s.subrange(i as int, s.len() as int), state as int, tag@),
            decreases self.action.len() - i,
        {
            let entry = &self.action[i];
            let ghost rest = s.subrange(i as int, s.len() as int);
            assert(rest[0] == action_entry_view(self.action@[i as int]));
            if entry.0.0 == state && entry.0.1.same(tag) {
                return Some(&entry.1);
            }
            assert(rest.drop_first() =~= s.subrange(i + 1, s.len() as int));
            i += 1;
        }
        None
    }

    /// The target of the first entry with key `(state, nterm)`.
    pub fn find_goto(&self, state: i32, nterm: &Nonterminal) -> (r: Option<i32>)
        ensures
            match r {
                Some(n) => lookup_goto(self@.goto, state as int, nterm@) == Some(n as int),
                None => lookup_goto(self@.goto, state as int, nterm@) is None,
            },
    {
        let ghost s = self@.goto;
        assert(s.subrange(0, s.len() as int) =~= s);
        let mut i: usize = 0;
        while i < self.goto.len()
            invariant
                i <= self.goto.len(),
                s == self@.goto,
                lookup_goto(s, state as int, nterm@) == lookup_goto(s.subrange(i as int, s.len() as int), state as int, nterm@),
            decreases self.goto.len() - i,
        {
            let entry = &self.goto[i];
            let ghost rest = s.subrange(i as int, s.len() as int);
            assert(rest[0] == goto_entry_view(self.goto@[i as int]));
            if entry.0.0 == state && entry.0.1.same(nterm) {
                return Some(entry.1);
            }
            assert(rest.drop_first() =~= s.subrange(i + 1, s.len() as int));
            i += 1;
        }
        None
    }
}

} // verus!

verus! {

/// A start non-terminal and an ordered list of rules.
#[derive(PartialEq, Eq, Debug, Clone)]
pub struct Grammar {
    pub start: Nonterminal,
    pub rules: Vec<Rule>,
}

pub struct GrammarV {
    pub start: Seq<char>,
    pub rules: Seq<RuleV>,
}

impl View for Grammar {
    type V = GrammarV;

    open spec fn view(&self) -> GrammarV {
        GrammarV { start: self.start@, rules: self.rules@.map_values(|r: Rule| r@) }
    }
}

/// Some rule has `n` on its left.
pub open spec fn declared(g: GrammarV, n: Seq<char>) -> bool {
    exists|i: int| 0 <= i < g.rules.len() && #[trigger] g.rules[i].left == n
}

/// Rule `i` uses non-terminal `n` at place `j` of its right-hand side.
pub open spec fn used_at(g: GrammarV, i: int, j: int, n: Seq<char>) -> bool {
    &&& 0 <= i < g.rules.len()
    &&& 0 <= j < g.rules[i].right.len()
    &&& g.rules[i].right[j] == SymV::N(n)
}

/// Every non-terminal used on a right-hand side has a rule.
pub open spec fn all_declared(g: GrammarV) -> bool {
    forall|i: int, j: int, n: Seq<char>| #[trigger] used_at(g, i, j, n) ==> declared(g, n)
}

/// `n` is the first undeclared non-terminal, in rule order and then in
/// order within a right-hand side.
pub open spec fn first_undeclared(g: GrammarV, n: Seq<char>) -> bool {
    exists|i: int, j: int| #[trigger] used_at(g, i, j, n) && !declared(g, n)
        && forall|a: int, b: int, m: Seq<char>| (a < i || (a == i && b < j)) && #[trigger] used_at(g, a, b, m) ==> declared(g, m)
}

/// Some rule has `ROOT` on its left.
pub open spec fn defines_root(g: GrammarV) -> bool {
    exists|i: int| 0 <= i < g.rules.len() && #[trigger] g.rules[i].left == root_name()
}

/// The grammar with the rule `ROOT -> start` appended.
pub open spec fn augmented(g: GrammarV) -> GrammarV {
    GrammarV {
        start: g.start,
        rules: g.rules.push(RuleV { left: root_name(), right: seq![SymV::N(g.start)] }),
    }
}

/// Errors of table generation.
#[derive(Debug)]
pub enum GeneratorError {
    ParseError(ParseError<crate::meta::TokenAttribute>),
    UndeclaredNonterminal(Nonterminal),
    ShiftReduceConflict,
    ReduceReduceConflict,
    /// The grammar, or its automaton, is too large for the integer types
    /// that number its states.
    TooLarge,
    /// The parse tree does not have the shape of the meta-grammar.
    UnexpectedTree,
    /// A rule group of the grammar text is named `ROOT`, which augmentation
    /// reserves.
    RootRedefined,
}

impl Grammar {
    pub fn new(start: Nonterminal, rules: Vec<Rule>) -> (r: Grammar)
        ensures
            r.start == start,
            r.rules == rules,
    {
        Grammar { start, rules }
    }
}

/// Appends the synthetic rule `ROOT -> start`.
pub fn add_fake_root(grammar: &mut Grammar)
    ensures
        final(grammar)@ == augmented(old(grammar)@),
{
    let ghost before = grammar@;
    let rule = Rule { left: root_nonterminal(), right: vec![Term::Nonterminal(grammar.start.cloned())] };
    assert(rule@.right =~= seq![SymV::N(before.start)]);
    grammar.rules.push(rule);
    assert(grammar@.rules =~= augmented(before).rules);
}

/// After augmentation `ROOT` is on the left of exactly one rule, whose
/// right-hand side is the start symbol alone, provided that no rule of the grammar
/// had `ROOT` on its left before.
pub proof fn lemma_augmentation_root_unique(g: GrammarV)
    requires
        forall|i: int| 0 <= i < g.rules.len() ==> g.rules[i].left != root_name(),
    ensures
        ({
            let a = augmented(g);
            let k = g.rules.len() as int;
            &&& a.rules[k].left == root_name()
            &&& a.rules[k].right == seq![SymV::N(g.start)]
            &&& forall|i: int| 0 <= i < a.rules.len() && a.rules[i].left == root_name() ==> i == k
        }),
{
}

/// `Ok` when every non-terminal used on a right-hand side has a rule; else
/// the first one, in rule order, that has none.
pub fn validate_grammar(grammar: &Grammar) -> (r: Result<(), GeneratorError>)
    ensures
        r is Ok <==> all_declared(grammar@),
        r is Err ==> r->Err_0 is UndeclaredNonterminal && first_undeclared(grammar@, r->Err_0->UndeclaredNonterminal_0@),
{
    let ghost g = grammar@;
    let mut i: usize = 0;
    while i < grammar.rules.len()
        invariant
            g == grammar@,
            i <= grammar.rules.len(),
            forall|a: int, j: int, n: Seq<char>| 0 <= a < i && #[trigger] used_at(g, a, j, n) ==> declared(g, n),
        decreases grammar.rules.len() - i,
    {
        let rule = &grammar.rules[i];
        let mut j: usize = 0;
        while j < rule.right.len()
            invariant
                g == grammar@,
                i < grammar.rules.len(),
                rule == grammar.rules@[i as int],
                j <= rule.right.len(),
                forall|a: int, b: int, n: Seq<char>| 0 <= a < i && #[trigger] used_at(g, a, b, n) ==> declared(g, n),
                forall|b: int, n: Seq<char>| 0 <= b < j && #[trigger] used_at(g, i as int, b, n) ==> declared(g, n),
            decreases rule.right.len() - j,
        {
            assert(g.rules[i as int] == rule@);
            if let Term::Nonterminal(n) = &rule.right[j] {
                let mut found = false;
                let mut k: usize = 0;
                while k < grammar.rules.len()
                    invariant
                        g == grammar@,
                        k <= grammar.rules.len(),
                        found ==> declared(g, n@),
                        !found ==> forall|m: int| 0 <= m < k ==> g.rules[m].left != n@,
                    decreases grammar.rules.len() - k,
                {
                    if grammar.rules[k].left.same(n) {
                        assert(g.rules[k as int].left == n@);
                        found = true;
                    }
                    k += 1;
                }
                if !found {
                    assert(used_at(g, i as int, j as int, n@));
                    assert(!declared(g, n@));
                    let e = n.cloned();
                    assert(e@ == n@);
                    assert(exists|a: int, b: int| used_at(g, a, b, e@));
                    assert(first_undeclared(g, e@)) by {
                        assert forall|a: int, b: int, m: Seq<char>| (a < i || (a == i && b < j)) && #[trigger] used_at(g, a, b, m) implies declared(g, m) by {
                        }
                        assert(used_at(g, i as int, j as int, e@));
                    }
                    let r = Err(GeneratorError::UndeclaredNonterminal(e));
                    assert(r->Err_0->UndeclaredNonterminal_0@ == e@);
                    return r;
                }
            }
            assert forall|b: int, n: Seq<char>| 0 <= b < j + 1 && #[trigger] used_at(g, i as int, b, n) implies declared(g, n) by {
                if b == j {
                    assert(g.rules[i as int].right[b] == rule.right@[b]@);
                }
            }
            j += 1;
        }
        assert forall|a: int, b: int, n: Seq<char>| 0 <= a < i + 1 && #[trigger] used_at(g, a, b, n) implies declared(g, n) by {
            if a == i {
                assert(g.rules[a].right.len() == rule.right@.len());
            }
        }
        i += 1;
    }
    Ok(())
}

} // verus!

verus! {

/// The right-hand side of 0 symbols.
pub fn rhs0() -> (r: Vec<Term>)
    ensures
        r@ == Seq::<Term>::empty(),
        terms_view(r@) == Seq::<SymV>::empty(),
{
    let mut r: Vec<Term> = Vec::new();
    assert(r@ =~= Seq::<Term>::empty());
    assert(terms_view(r@) =~= Seq::<SymV>::empty());
    r
}

/// The right-hand side of 1 symbols.
pub fn rhs1(x0: Term) -> (r: Vec<Term>)
    ensures
        r@ == seq![x0],
        terms_view(r@) == seq![x0@],
{
    let mut r: Vec<Term> = Vec::new();
    r.push(x0);
    assert(r@ =~= seq![x0]);
    assert(terms_view(r@) =~= seq![x0@]);
    r
}

/// The right-hand side of 2 symbols.
pub fn rhs2(x0: Term, x1: Term) -> (r: Vec<Term>)
    ensures
        r@ == seq![x0, x1],
        terms_view(r@) == seq![x0@, x1@],
{
    let mut r: Vec<Term> = Vec::new();
    r.push(x0);
    r.push(x1);
    assert(r@ =~= seq![x0, x1]);
    assert(terms_view(r@) =~= seq![x0@, x1@]);
    r
}

/// The right-hand side of 3 symbols.
pub fn rhs3(x0: Term, x1: Term, x2: Term) -> (r: Vec<Term>)
    ensures
        r@ == seq![x0, x1, x2],
        terms_view(r@) == seq![x0@, x1@, x2@],
{
    let mut r: Vec<Term> = Vec::new();
    r.push(x0);
    r.push(x1);
    r.push(x2);
    assert(r@ =~= seq![x0, x1, x2]);
    assert(terms_view(r@) =~= seq![x0@, x1@, x2@]);
    r
}

/// The right-hand side of 4 symbols.
pub fn rhs4(x0: Term, x1: Term, x2: Term, x3: Term) -> (r: Vec<Term>)
    ensures
        r@ == seq![x0, x1, x2, x3],
        terms_view(r@) == seq![x0@, x1@, x2@, x3@],
{
    let mut r: Vec<Term> = Vec::new();
    r.push(x0);
    r.push(x1);
    r.push(x2);
    r.push(x3);
    assert(r@ =~= seq![x0, x1, x2, x3]);
    assert(terms_view(r@) =~= seq![x0@, x1@, x2@, x3@]);
    r
}

/// The right-hand side of 5 symbols.
pub fn rhs5(x0: Term, x1: Term, x2: Term, x3: Term, x4: Term) -> (r: Vec<Term>)
    ensures
        r@ == seq![x0, x1, x2, x3, x4],
        terms_view(r@) == seq![x0@, x1@, x2@, x3@, x4@],
{
    let mut r: Vec<Term> = Vec::new();
    r.push(x0);
    r.push(x1);
    r.push(x2);
    r.push(x3);
    r.push(x4);
    assert(r@ =~= seq![x0, x1, x2, x3, x4]);
    assert(terms_view(r@) =~= seq![x0@, x1@, x2@, x3@, x4@]);
    r
}

/// The right-hand side of 6 symbols.
pub fn rhs6(x0: Term, x1: Term, x2: Term, x3: Term, x4: Term, x5: Term) -> (r: Vec<Term>)
    ensures
        r@ == seq![x0, x1, x2, x3, x4, x5],
        terms_view(r@) == seq![x0@, x1@, x2@, x3@, x4@, x5@],
{
    let mut r: Vec<Term> = Vec::new();
    r.push(x0);
    r.push(x1);
    r.push(x2);
    r.push(x3);
    r.push(x4);
    r.push(x5);
    assert(r@ =~= seq![x0, x1, x2, x3, x4, x5]);
    assert(terms_view(r@) =~= seq![x0@, x1@, x2@, x3@, x4@, x5@]);
    r
}

/// The tag of the terminal named `s`.
pub fn term_tag(s: &str) -> (r: TerminalOrFinish)
    ensures
        r@ == TagV::T(s@),
{
    TerminalOrFinish::Terminal(Terminal(str_to_string(s)))
}

/// The terminal symbol named `s`.
pub fn t_sym(s: &str) -> (r: Term)
    ensures
        r@ == SymV::T(s@),
{
    Term::Terminal(Terminal(str_to_string(s)))
}

/// The non-terminal symbol named `s`.
pub fn n_sym(s: &str) -> (r: Term)
    ensures
        r@ == SymV::N(s@),
{
    Term::Nonterminal(Nonterminal(str_to_string(s)))
}

/// An ACTION entry that shifts to state `to`.
pub fn shift_entry(q: i32, tag: TerminalOrFinish, to: i32) -> (r: ((i32, TerminalOrFinish), LR1Action))
    ensures
        action_entry_view(r) == ((q as int, tag@), ActionV::Shift(to as int)),
{
    ((q, tag), LR1Action::Shift(to))
}

/// An ACTION entry that accepts on the end marker.
pub fn accept_entry(q: i32) -> (r: ((i32, TerminalOrFinish), LR1Action))
    ensures
        action_entry_view(r) == ((q as int, TagV::End), ActionV::Accept),
{
    ((q, TerminalOrFinish::Finish), LR1Action::Accept)
}

/// An ACTION entry that reduces by the rule `left -> right`.
pub fn reduce_entry(q: i32, tag: TerminalOrFinish, left: &str, right: Vec<Term>) -> (r: ((i32, TerminalOrFinish), LR1Action))
    ensures
        action_entry_view(r) == ((q as int, tag@), ActionV::Reduce(RuleV { left: left@, right: terms_view(right@) })),
{
    ((q, tag), LR1Action::Reduce(Rule { left: Nonterminal(str_to_string(left)), right }))
}

/// A GOTO entry.
pub fn goto_entry(q: i32, n: &str, to: i32) -> (r: ((i32, Nonterminal), i32))
    ensures
        goto_entry_view(r) == ((q as int, n@), to as int),
{
    ((q, Nonterminal(str_to_string(n))), to)
}

} // verus!
