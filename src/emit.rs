//! Parse tables as Rust source: a function that builds them, spliced into
//! a runtime template between two marker lines.

use vstd::prelude::*;
use crate::grammar::{ActionV, LR1Action, ParseTables, Rule, RuleV, SymV, TablesV, TagV, Term, TerminalOrFinish};
use crate::text::{push_int, push_str, signed_decimal};

verus! {

/// Line of the runtime template after which the tables go.
pub open spec fn start_marker() -> Seq<char> {
    "//@START_PARSE_TABLES@"@
}

/// Line of the runtime template before which the tables end.
pub open spec fn end_marker() -> Seq<char> {
    "//@END_PARSE_TABLES@"@
}

/// A line of `t` begins at `i` with `m`.
pub open spec fn line_starts_with(t: Seq<char>, i: int, m: Seq<char>) -> bool {
    &&& 0 <= i
    &&& i + m.len() <= t.len()
    &&& (i == 0 || t[i - 1] == '\n')
    &&& t.subrange(i, i + m.len()) == m
}

/// The first line of `t` that begins with `m` begins at `i`.
pub open spec fn first_line(t: Seq<char>, m: Seq<char>, i: int) -> bool {
    line_starts_with(t, i, m) && forall|j: int| 0 <= j < i ==> !line_starts_with(t, j, m)
}

/// The tables go after the line of the start marker, which begins at `a`
/// and ends at `e1`, and before the line of the end marker at `b`.
pub open spec fn spliced(t: Seq<char>, a: int, e1: int, b: int) -> bool {
    &&& first_line(t, start_marker(), a)
    &&& first_line(t, end_marker(), b)
    &&& a <= e1 <= t.len()
    &&& (e1 == t.len() || t[e1] == '\n')
    &&& forall|m: int| a <= m < e1 ==> #[trigger] t[m] != '\n'
}

fn chars_of(s: &str) -> (r: Vec<char>)
    ensures
        r@ == s@,
{
    let n = s.unicode_len();
    let mut v: Vec<char> = Vec::new();
    let mut i: usize = 0;
    while i < n
        invariant
            n == s@.len(),
            i <= n,
            v@ == s@.subrange(0, i as int),
        decreases n - i,
    {
        v.push(s.get_char(i));
        i += 1;
        assert(v@ =~= s@.subrange(0, i as int));
    }
    assert(s@.subrange(0, n as int) =~= s@);
    v
}

fn matches_at(t: &Vec<char>, i: usize, m: &Vec<char>) -> (r: bool)
    requires
        i <= t@.len(),
    ensures
        r == (i + m@.len() <= t@.len() && t@.subrange(i as int, i + m@.len()) == m@),
{
    if m.len() > t.len() - i {
        return false;
    }
    let mut k: usize = 0;
    while k < m.len()
        invariant
            i <= t@.len(),
            i + m@.len() <= t@.len(),
            k <= m@.len(),
            forall|j: int| 0 <= j < k ==> t@[i + j] == m@[j],
        decreases m.len() - k,
    {
        assert(i + k < t@.len());
        assert(t@.len() == t.len());
        let idx = i + k;
        if t[idx] != m[k] {
            assert(t@.subrange(i as int, i + m@.len())[k as int] != m@[k as int]);
            return false;
        }
        k += 1;
    }
    assert(t@.subrange(i as int, i + m@.len()) =~= m@);
    true
}

proof fn lemma_first_line_unique(t: Seq<char>, m: Seq<char>, i: int)
    requires
        first_line(t, m, i),
    ensures
        forall|j: int| #[trigger] first_line(t, m, j) ==> j == i,
{
    assert forall|j: int| #[trigger] first_line(t, m, j) implies j == i by {
        if j < i {
            assert(!line_starts_with(t, j, m));
        } else if i < j {
            assert(!line_starts_with(t, i, m));
        }
    }
}

/// The first line of `t` that begins with `m`.
fn find_line(t: &Vec<char>, m: &Vec<char>) -> (r: Option<usize>)
    ensures
        match r {
            Some(i) => line_starts_with(t@, i as int, m@) && forall|j: int| 0 <= j < i ==> !line_starts_with(t@, j, m@),
            None => forall|j: int| 0 <= j <= t@.len() ==> !line_starts_with(t@, j, m@),
        },
{
    let mut i: usize = 0;
    while i <= t.len()
        invariant
            i <= t@.len() + 1,
            forall|j: int| 0 <= j < i ==> !line_starts_with(t@, j, m@),
        decreases t@.len() + 1 - i,
    {
        if (i == 0 || t[i - 1] == '\n') && matches_at(t, i, m) {
            return Some(i);
        }
        if i == t.len() {
            return None;
        }
        i += 1;
    }
    None
}

/// The Rust expression for a tag.
pub open spec fn tag_text(t: TagV) -> Seq<char> {
    match t {
        TagV::T(n) => "TerminalOrFinish::Terminal(Terminal(String::from(\""@ + n + "\")))"@,
        TagV::End => "TerminalOrFinish::Finish"@,
    }
}

/// The Rust expression for a symbol.
pub open spec fn sym_text(x: SymV) -> Seq<char> {
    match x {
        SymV::N(n) => "Term::Nonterminal(Nonterminal(String::from(\""@ + n + "\")))"@,
        SymV::T(n) => "Term::Terminal(Terminal(String::from(\""@ + n + "\")))"@,
    }
}

/// The symbols of a right-hand side, each followed by a comma and a newline.
pub open spec fn syms_text(s: Seq<SymV>) -> Seq<char>
    decreases s.len(),
{
    if s.len() == 0 {
        Seq::empty()
    } else {
        syms_text(s.drop_last()) + sym_text(s.last()) + ",\n"@
    }
}

/// The Rust expression for a rule.
pub open spec fn rule_text(r: RuleV) -> Seq<char> {
    "\n            Rule {\n                left: Nonterminal(String::from(\""@ + r.left + "\")),\n                right: vec!["@
        + syms_text(r.right) + "],\n            }\n        "@
}

/// The Rust expression for an action.
pub open spec fn action_text(a: ActionV) -> Seq<char> {
    match a {
        ActionV::Shift(s) => "LR1Action::Shift("@ + signed_decimal(s) + ")"@,
        ActionV::Reduce(r) => "LR1Action::Reduce("@ + rule_text(r) + ")"@,
        ActionV::Accept => "LR1Action::Accept"@,
    }
}

/// The ACTION entries, one per line.
pub open spec fn action_entries_text(s: Seq<((int, TagV), ActionV)>) -> Seq<char>
    decreases s.len(),
{
    if s.len() == 0 {
        Seq::empty()
    } else {
        let e = s.last();
        action_entries_text(s.drop_last()) + "(("@ + signed_decimal(e.0.0) + ", "@ + tag_text(e.0.1) + "), "@ + action_text(e.1) + "),\n"@
    }
}

/// The GOTO entries, one per line.
pub open spec fn goto_entries_text(s: Seq<((int, Seq<char>), int)>) -> Seq<char>
    decreases s.len(),
{
    if s.len() == 0 {
        Seq::empty()
    } else {
        let e = s.last();
        goto_entries_text(s.drop_last()) + "(("@ + signed_decimal(e.0.0) + ", Nonterminal(String::from(\""@ + e.0.1 + "\"))), "@
            + signed_decimal(e.1) + "),\n"@
    }
}

/// The Rust function `get_parse_tables` that builds tables `t`.
pub open spec fn rust_function_text(t: TablesV) -> Seq<char> {
    "\n        pub fn get_parse_tables() -> ParseTables {\n            let action = [\n                "@ + action_entries_text(t.action)
        + "\n            ].into_iter().collect();\n            let goto = [\n                "@ + goto_entries_text(t.goto)
        + "\n            ].into_iter().collect();\n            ParseTables {\n                start: "@ + signed_decimal(t.start)
        + ",\n                action,\n                goto,\n            }\n        }\n        "@
}

fn push_tag_text(out: &mut String, tag: &TerminalOrFinish)
    ensures
        final(out)@ == old(out)@ + tag_text(tag@),
{
    match tag {
        TerminalOrFinish::Terminal(t) => {
            push_str(out, "TerminalOrFinish::Terminal(Terminal(String::from(\"");
            push_str(out, t.0.as_str());
            push_str(out, "\")))");
        },
        TerminalOrFinish::Finish => push_str(out, "TerminalOrFinish::Finish"),
    }
    assert(final(out)@ =~= old(out)@ + tag_text(tag@));
}

fn push_sym_text(out: &mut String, x: &Term)
    ensures
        final(out)@ == old(out)@ + sym_text(x@),
{
    match x {
        Term::Nonterminal(n) => {
            push_str(out, "Term::Nonterminal(Nonterminal(String::from(\"");
            push_str(out, n.0.as_str());
            push_str(out, "\")))");
        },
        Term::Terminal(t) => {
            push_str(out, "Term::Terminal(Terminal(String::from(\"");
            push_str(out, t.0.as_str());
            push_str(out, "\")))");
        },
    }
    assert(final(out)@ =~= old(out)@ + sym_text(x@));
}

impl Rule {
    /// The rule as a Rust expression.
    pub fn to_literal(&self) -> (r: String)
        ensures
            r@ == rule_text(self@),
    {
        let mut res = String::new();
        push_str(&mut res, "\n            Rule {\n                left: Nonterminal(String::from(\"");
        push_str(&mut res, self.left.0.as_str());
        push_str(&mut res, "\")),\n                right: vec![");
        let ghost head = res@;
        let mut i: usize = 0;
        while i < self.right.len()
            invariant
                i <= self.right@.len(),
                res@ == head + syms_text(crate::grammar::terms_view(self.right@).subrange(0, i as int)),
            decreases self.right.len() - i,
        {
            let ghost before = res@;
            push_sym_text(&mut res, &self.right[i]);
            push_str(&mut res, ",\n");
            proof {
                let s = crate::grammar::terms_view(self.right@);
                assert(s.subrange(0, i + 1).drop_last() =~= s.subrange(0, i as int));
                assert(s.subrange(0, i + 1).last() == self.right@[i as int]@);
                assert(res@ =~= head + syms_text(s.subrange(0, i + 1)));
            }
            i += 1;
        }
        assert(crate::grammar::terms_view(self.right@).subrange(0, self.right@.len() as int) =~= self@.right);
        push_str(&mut res, "],\n            }\n        ");
        assert(res@ =~= rule_text(self@));
        res
    }
}

fn push_action_text(out: &mut String, a: &LR1Action)
    ensures
        final(out)@ == old(out)@ + action_text(a@),
{
    match a {
        LR1Action::Shift(s) => {
            push_str(out, "LR1Action::Shift(");
            push_int(out, *s);
            push_str(out, ")");
        },
        LR1Action::Reduce(rule) => {
            push_str(out, "LR1Action::Reduce(");
            let lit = rule.to_literal();
            push_str(out, lit.as_str());
            push_str(out, ")");
        },
        LR1Action::Accept => push_str(out, "LR1Action::Accept"),
    }
    assert(final(out)@ =~= old(out)@ + action_text(a@));
}

impl ParseTables {
    /// A Rust function `get_parse_tables` that builds these tables.
    #[verifier::rlimit(80)]
    #[verifier::spinoff_prover]
    pub fn to_rust_function(&self) -> (r: String)
        ensures
            r@ == rust_function_text(self@),
    {
        let mut res = String::new();
        push_str(&mut res, "\n        pub fn get_parse_tables() -> ParseTables {\n            let action = [\n                ");
        let ghost head = res@;
        let ghost av = self@.action;
        let mut i: usize = 0;
        while i < self.action.len()
            invariant
                i <= self.action@.len(),
                av == self@.action,
                res@ == head + action_entries_text(av.subrange(0, i as int)),
            decreases self.action.len() - i,
        {
            let entry = &self.action[i];
            let ghost before = res@;
            push_str(&mut res, "((");
            push_int(&mut res, entry.0.0);
            push_str(&mut res, ", ");
            push_tag_text(&mut res, &entry.0.1);
            push_str(&mut res, "), ");
            push_action_text(&mut res, &entry.1);
            push_str(&mut res, "),\n");
            proof {
                assert(av.subrange(0, i + 1).drop_last() =~= av.subrange(0, i as int));
                assert(av.subrange(0, i + 1).last() == crate::grammar::action_entry_view(*entry));
                assert(res@ =~= head + action_entries_text(av.subrange(0, i + 1)));
            }
            i += 1;
        }
        assert(av.subrange(0, av.len() as int) =~= av);
        push_str(&mut res, "\n            ].into_iter().collect();\n            let goto = [\n                ");
        let ghost head2 = res@;
        let ghost gv = self@.goto;
        let mut i: usize = 0;
        while i < self.goto.len()
            invariant
                i <= self.goto@.len(),
                gv == self@.goto,
                res@ == head2 + goto_entries_text(gv.subrange(0, i as int)),
            decreases self.goto.len() - i,
        {
            let entry = &self.goto[i];
            push_str(&mut res, "((");
            push_int(&mut res, entry.0.0);
            push_str(&mut res, ", Nonterminal(String::from(\"");
            push_str(&mut res, entry.0.1.0.as_str());
            push_str(&mut res, "\"))), ");
            push_int(&mut res, entry.1);
            push_str(&mut res, "),\n");
            proof {
                assert(gv.subrange(0, i + 1).drop_last() =~= gv.subrange(0, i as int));
                assert(gv.subrange(0, i + 1).last() == crate::grammar::goto_entry_view(*entry));
                assert(res@ =~= head2 + goto_entries_text(gv.subrange(0, i + 1)));
            }
            i += 1;
        }
        assert(gv.subrange(0, gv.len() as int) =~= gv);
        push_str(&mut res, "\n            ].into_iter().collect();\n            ParseTables {\n                start: ");
        push_int(&mut res, self.start);
        push_str(&mut res, ",\n                action,\n                goto,\n            }\n        }\n        ");
        assert(res@ =~= rust_function_text(self@));
        res
    }

    /// The runtime `template` with the function that builds these tables in
    /// place of what stands between its two marker lines; `None` when a
    /// marker line is missing, or the end marker comes first.
    pub fn to_rust_source(&self, template: &str) -> (r: Option<String>)
        ensures
            r is Some <==> exists|a: int, b: int| first_line(template@, start_marker(), a) && first_line(template@, end_marker(), b),
            r is Some ==> exists|a: int, e1: int, b: int| #[trigger] spliced(template@, a, e1, b) && r->Some_0@ == template@.subrange(0, e1) + "\n"@
                + rust_function_text(self@) + "\n"@ + template@.subrange(b, template@.len() as int),
    {
        let t = chars_of(template);
        proof {
            reveal_strlit("//@START_PARSE_TABLES@");
            reveal_strlit("//@END_PARSE_TABLES@");
        }
        let sm = chars_of("//@START_PARSE_TABLES@");
        let em = chars_of("//@END_PARSE_TABLES@");
        let a = match find_line(&t, &sm) {
            Some(a) => a,
            None => {
                assert(!exists|a: int, b: int| first_line(template@, start_marker(), a) && first_line(template@, end_marker(), b) && a < b);
                return None;
            },
        };
        let b = match find_line(&t, &em) {
            Some(b) => b,
            None => {
                assert(!exists|a: int, b: int| first_line(template@, start_marker(), a) && first_line(template@, end_marker(), b) && a < b);
                return None;
            },
        };
        proof {
            lemma_first_line_unique(template@, start_marker(), a as int);
            lemma_first_line_unique(template@, end_marker(), b as int);
        }
        let mut e1 = a;
        while e1 < t.len() && t[e1] != '\n'
            invariant
                a <= e1 <= t@.len(),
                b <= t@.len(),
                t@ == template@,
                forall|m: int| a <= m < e1 ==> #[trigger] t@[m] != '\n',
            decreases t@.len() - e1,
        {
            e1 += 1;
        }
        let mut res = String::new();
        push_str(&mut res, template.substring_char(0, e1));
        push_str(&mut res, "\n");
        let tables = self.to_rust_function();
        push_str(&mut res, tables.as_str());
        push_str(&mut res, "\n");
        push_str(&mut res, template.substring_char(b, t.len()));
        assert(spliced(template@, a as int, e1 as int, b as int));
        assert(res@ =~= template@.subrange(0, e1 as int) + "\n"@ + rust_function_text(self@) + "\n"@ + template@.subrange(b as int, template@.len() as int));
        assert(first_line(template@, start_marker(), a as int) && first_line(template@, end_marker(), b as int));
        Some(res)
    }
}

} // verus!
