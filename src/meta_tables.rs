//! Parse tables for the meta-grammar, the grammar of grammar texts.

use vstd::prelude::*;
use crate::driver::accepts_only_at_end;
use crate::grammar::{
    ActionV, RuleV, SymV, TablesV, TagV,
    LR1Action, Nonterminal, ParseTables, TerminalOrFinish, accept_entry, goto_entry, n_sym,
    reduce_entry, rhs0, rhs1, rhs2, rhs3, rhs4, rhs5, rhs6, shift_entry, t_sym, term_tag,
};

verus! {

/// The ACTION entries of [`get_parse_tables`], in order.
pub open spec fn meta_action() -> Seq<((int, TagV), ActionV)> {
    seq![
        ((3, TagV::T("close"@)), ActionV::Reduce(RuleV { left: "I"@, right: seq![] })),
        ((4, TagV::T("close"@)), ActionV::Shift(5)),
        ((7, TagV::T("open"@)), ActionV::Shift(17)),
        ((11, TagV::End), ActionV::Reduce(RuleV { left: "R"@, right: seq![] })),
        ((17, TagV::T("nterm"@)), ActionV::Shift(3)),
        ((19, TagV::T("close"@)), ActionV::Reduce(RuleV { left: "P"@, right: seq![] })),
        ((19, TagV::T("open"@)), ActionV::Shift(17)),
        ((14, TagV::T("close"@)), ActionV::Shift(4)),
        ((8, TagV::T("close"@)), ActionV::Reduce(RuleV { left: "I"@, right: seq![SymV::T("nterm"@), SymV::N("I"@)] })),
        ((20, TagV::T("close"@)), ActionV::Reduce(RuleV { left: "I"@, right: seq![] })),
        ((22, TagV::End), ActionV::Reduce(RuleV { left: "S"@, right: seq![SymV::N("A"@), SymV::N("R"@)] })),
        ((21, TagV::T("open"@)), ActionV::Shift(6)),
        ((6, TagV::T("nterm"@)), ActionV::Shift(7)),
        ((7, TagV::T("close"@)), ActionV::Reduce(RuleV { left: "P"@, right: seq![] })),
        ((18, TagV::T("open"@)), ActionV::Shift(10)),
        ((1, TagV::End), ActionV::Reduce(RuleV { left: "T"@, right: seq![SymV::T("open"@), SymV::T("nterm"@), SymV::N("P"@), SymV::T("close"@)] })),
        ((9, TagV::T("close"@)), ActionV::Shift(19)),
        ((5, TagV::End), ActionV::Reduce(RuleV { left: "A"@, right: seq![SymV::T("open"@), SymV::T("ax"@), SymV::T("open"@), SymV::T("nterm"@), SymV::T("close"@), SymV::T("close"@)] })),
        ((17, TagV::T("term"@)), ActionV::Shift(20)),
        ((0, TagV::T("close"@)), ActionV::Shift(1)),
        ((2, TagV::End), ActionV::Accept),
        ((3, TagV::T("nterm"@)), ActionV::Shift(3)),
        ((15, TagV::T("open"@)), ActionV::Shift(16)),
        ((3, TagV::T("term"@)), ActionV::Shift(20)),
        ((20, TagV::T("term"@)), ActionV::Shift(20)),
        ((16, TagV::T("nterm"@)), ActionV::Shift(14)),
        ((13, TagV::End), ActionV::Reduce(RuleV { left: "R"@, right: seq![SymV::N("T"@), SymV::N("R"@)] })),
        ((1, TagV::T("open"@)), ActionV::Reduce(RuleV { left: "T"@, right: seq![SymV::T("open"@), SymV::T("nterm"@), SymV::N("P"@), SymV::T("close"@)] })),
        ((23, TagV::T("close"@)), ActionV::Reduce(RuleV { left: "P"@, right: seq![SymV::T("open"@), SymV::N("I"@), SymV::T("close"@), SymV::N("P"@)] })),
        ((17, TagV::T("close"@)), ActionV::Reduce(RuleV { left: "I"@, right: seq![] })),
        ((21, TagV::End), ActionV::Reduce(RuleV { left: "R"@, right: seq![] })),
        ((20, TagV::T("nterm"@)), ActionV::Shift(3)),
        ((10, TagV::T("ax"@)), ActionV::Shift(15)),
        ((5, TagV::T("open"@)), ActionV::Reduce(RuleV { left: "A"@, right: seq![SymV::T("open"@), SymV::T("ax"@), SymV::T("open"@), SymV::T("nterm"@), SymV::T("close"@), SymV::T("close"@)] })),
        ((12, TagV::T("close"@)), ActionV::Reduce(RuleV { left: "I"@, right: seq![SymV::T("term"@), SymV::N("I"@)] })),
        ((11, TagV::T("open"@)), ActionV::Shift(6)),
    ]
}

/// The GOTO entries of [`get_parse_tables`], in order.
pub open spec fn meta_goto() -> Seq<((int, Seq<char>), int)> {
    seq![
        ((18, "S"@), 2),
        ((18, "A"@), 21),
        ((21, "T"@), 11),
        ((19, "P"@), 23),
        ((17, "I"@), 9),
        ((20, "I"@), 12),
        ((11, "T"@), 11),
        ((3, "I"@), 8),
        ((11, "R"@), 13),
        ((21, "R"@), 22),
        ((7, "P"@), 0),
    ]
}

/// The tables of [`get_parse_tables`] as a value.
pub open spec fn meta_tables() -> TablesV {
    TablesV { start: 18, action: meta_action(), goto: meta_goto() }
}

/// The LR(1) tables of the meta-grammar, by which grammar texts are parsed.
#[verifier::rlimit(100)]
pub fn get_parse_tables() -> (r: ParseTables)
    ensures
        r@ == meta_tables(),
        accepts_only_at_end(r@),
{
    let mut action: Vec<((i32, TerminalOrFinish), LR1Action)> = Vec::new();
    let mut goto: Vec<((i32, Nonterminal), i32)> = Vec::new();
    action.push(reduce_entry(3, term_tag("close"), "I", rhs0()));
    action.push(shift_entry(4, term_tag("close"), 5));
    action.push(shift_entry(7, term_tag("open"), 17));
    action.push(reduce_entry(11, TerminalOrFinish::Finish, "R", rhs0()));
    action.push(shift_entry(17, term_tag("nterm"), 3));
    action.push(reduce_entry(19, term_tag("close"), "P", rhs0()));
    action.push(shift_entry(19, term_tag("open"), 17));
    action.push(shift_entry(14, term_tag("close"), 4));
    action.push(reduce_entry(8, term_tag("close"), "I", rhs2(t_sym("nterm"), n_sym("I"))));
    action.push(reduce_entry(20, term_tag("close"), "I", rhs0()));
    action.push(reduce_entry(22, TerminalOrFinish::Finish, "S", rhs2(n_sym("A"), n_sym("R"))));
    action.push(shift_entry(21, term_tag("open"), 6));
    action.push(shift_entry(6, term_tag("nterm"), 7));
    action.push(reduce_entry(7, term_tag("close"), "P", rhs0()));
    action.push(shift_entry(18, term_tag("open"), 10));
    action.push(reduce_entry(1, TerminalOrFinish::Finish, "T", rhs4(t_sym("open"), t_sym("nterm"), n_sym("P"), t_sym("close"))));
    action.push(shift_entry(9, term_tag("close"), 19));
    action.push(reduce_entry(5, TerminalOrFinish::Finish, "A", rhs6(t_sym("open"), t_sym("ax"), t_sym("open"), t_sym("nterm"), t_sym("close"), t_sym("close"))));
    action.push(shift_entry(17, term_tag("term"), 20));
    action.push(shift_entry(0, term_tag("close"), 1));
    action.push(accept_entry(2));
    action.push(shift_entry(3, term_tag("nterm"), 3));
    action.push(shift_entry(15, term_tag("open"), 16));
    action.push(shift_entry(3, term_tag("term"), 20));
    action.push(shift_entry(20, term_tag("term"), 20));
    action.push(shift_entry(16, term_tag("nterm"), 14));
    action.push(reduce_entry(13, TerminalOrFinish::Finish, "R", rhs2(n_sym("T"), n_sym("R"))));
    action.push(reduce_entry(1, term_tag("open"), "T", rhs4(t_sym("open"), t_sym("nterm"), n_sym("P"), t_sym("close"))));
    action.push(reduce_entry(23, term_tag("close"), "P", rhs4(t_sym("open"), n_sym("I"), t_sym("close"), n_sym("P"))));
    action.push(reduce_entry(17, term_tag("close"), "I", rhs0()));
    action.push(reduce_entry(21, TerminalOrFinish::Finish, "R", rhs0()));
    action.push(shift_entry(20, term_tag("nterm"), 3));
    action.push(shift_entry(10, term_tag("ax"), 15));
    action.push(reduce_entry(5, term_tag("open"), "A", rhs6(t_sym("open"), t_sym("ax"), t_sym("open"), t_sym("nterm"), t_sym("close"), t_sym("close"))));
    action.push(reduce_entry(12, term_tag("close"), "I", rhs2(t_sym("term"), n_sym("I"))));
    action.push(shift_entry(11, term_tag("open"), 6));
    goto.push(goto_entry(18, "S", 2));
    goto.push(goto_entry(18, "A", 21));
    goto.push(goto_entry(21, "T", 11));
    goto.push(goto_entry(19, "P", 23));
    goto.push(goto_entry(17, "I", 9));
    goto.push(goto_entry(20, "I", 12));
    goto.push(goto_entry(11, "T", 11));
    goto.push(goto_entry(3, "I", 8));
    goto.push(goto_entry(11, "R", 13));
    goto.push(goto_entry(21, "R", 22));
    goto.push(goto_entry(7, "P", 0));
    let r = ParseTables { start: 18, action, goto };
    assert(r@.action =~~= meta_action());
    assert(r@.goto =~= meta_goto());
    assert(accepts_only_at_end(r@));
    r
}

} // verus!
