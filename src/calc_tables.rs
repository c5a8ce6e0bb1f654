//! Parse tables for the arithmetic expressions of the calculator.

use vstd::prelude::*;
use crate::driver::accepts_only_at_end;
use crate::grammar::{
    ActionV, RuleV, SymV, TablesV, TagV,
    LR1Action, Nonterminal, ParseTables, TerminalOrFinish, accept_entry, goto_entry, n_sym,
    reduce_entry, rhs0, rhs1, rhs2, rhs3, rhs4, rhs5, rhs6, shift_entry, t_sym, term_tag,
};

verus! {

/// The ACTION entries of [`get_parse_tables`], in order.
pub open spec fn calc_action() -> Seq<((int, TagV), ActionV)> {
    seq![
        ((9, TagV::T("+"@)), ActionV::Reduce(RuleV { left: "T'"@, right: seq![] })),
        ((15, TagV::T("("@)), ActionV::Shift(19)),
        ((18, TagV::End), ActionV::Reduce(RuleV { left: "F"@, right: seq![SymV::T("("@), SymV::N("E"@), SymV::T(")"@)] })),
        ((21, TagV::T("/"@)), ActionV::Reduce(RuleV { left: "F"@, right: seq![SymV::T("n"@)] })),
        ((1, TagV::T(")"@)), ActionV::Reduce(RuleV { left: "T"@, right: seq![SymV::N("F"@), SymV::N("T'"@)] })),
        ((9, TagV::T(")"@)), ActionV::Reduce(RuleV { left: "T'"@, right: seq![] })),
        ((7, TagV::T("n"@)), ActionV::Shift(21)),
        ((1, TagV::T("+"@)), ActionV::Reduce(RuleV { left: "T"@, right: seq![SymV::N("F"@), SymV::N("T'"@)] })),
        ((1, TagV::T("-"@)), ActionV::Reduce(RuleV { left: "T"@, right: seq![SymV::N("F"@), SymV::N("T'"@)] })),
        ((10, TagV::T(")"@)), ActionV::Shift(18)),
        ((8, TagV::T("-"@)), ActionV::Reduce(RuleV { left: "T'"@, right: seq![] })),
        ((19, TagV::T("("@)), ActionV::Shift(19)),
        ((16, TagV::T("n"@)), ActionV::Shift(21)),
        ((9, TagV::End), ActionV::Reduce(RuleV { left: "T'"@, right: seq![] })),
        ((21, TagV::T("-"@)), ActionV::Reduce(RuleV { left: "F"@, right: seq![SymV::T("n"@)] })),
        ((9, TagV::T("-"@)), ActionV::Reduce(RuleV { left: "T'"@, right: seq![] })),
        ((3, TagV::T(")"@)), ActionV::Reduce(RuleV { left: "E'"@, right: seq![] })),
        ((17, TagV::T("("@)), ActionV::Shift(19)),
        ((13, TagV::T("+"@)), ActionV::Shift(7)),
        ((9, TagV::T("*"@)), ActionV::Shift(17)),
        ((20, TagV::T("+"@)), ActionV::Reduce(RuleV { left: "T'"@, right: seq![SymV::T("/"@), SymV::N("F"@), SymV::N("T'"@)] })),
        ((7, TagV::T("("@)), ActionV::Shift(19)),
        ((0, TagV::T("+"@)), ActionV::Shift(7)),
        ((17, TagV::T("n"@)), ActionV::Shift(21)),
        ((5, TagV::End), ActionV::Reduce(RuleV { left: "E'"@, right: seq![SymV::T("+"@), SymV::N("T"@), SymV::N("E'"@)] })),
        ((3, TagV::End), ActionV::Reduce(RuleV { left: "E'"@, right: seq![] })),
        ((15, TagV::T("n"@)), ActionV::Shift(21)),
        ((3, TagV::T("-"@)), ActionV::Shift(15)),
        ((4, TagV::End), ActionV::Reduce(RuleV { left: "T'"@, right: seq![SymV::T("*"@), SymV::N("F"@), SymV::N("T'"@)] })),
        ((14, TagV::T("("@)), ActionV::Shift(19)),
        ((13, TagV::T(")"@)), ActionV::Reduce(RuleV { left: "E'"@, right: seq![] })),
        ((18, TagV::T("/"@)), ActionV::Reduce(RuleV { left: "F"@, right: seq![SymV::T("("@), SymV::N("E"@), SymV::T(")"@)] })),
        ((18, TagV::T(")"@)), ActionV::Reduce(RuleV { left: "F"@, right: seq![SymV::T("("@), SymV::N("E"@), SymV::T(")"@)] })),
        ((21, TagV::End), ActionV::Reduce(RuleV { left: "F"@, right: seq![SymV::T("n"@)] })),
        ((14, TagV::T("n"@)), ActionV::Shift(21)),
        ((20, TagV::T("-"@)), ActionV::Reduce(RuleV { left: "T'"@, right: seq![SymV::T("/"@), SymV::N("F"@), SymV::N("T'"@)] })),
        ((18, TagV::T("-"@)), ActionV::Reduce(RuleV { left: "F"@, right: seq![SymV::T("("@), SymV::N("E"@), SymV::T(")"@)] })),
        ((8, TagV::T(")"@)), ActionV::Reduce(RuleV { left: "T'"@, right: seq![] })),
        ((6, TagV::T(")"@)), ActionV::Reduce(RuleV { left: "T'"@, right: seq![] })),
        ((21, TagV::T("+"@)), ActionV::Reduce(RuleV { left: "F"@, right: seq![SymV::T("n"@)] })),
        ((6, TagV::T("*"@)), ActionV::Shift(17)),
        ((12, TagV::End), ActionV::Reduce(RuleV { left: "E'"@, right: seq![SymV::T("-"@), SymV::N("T"@), SymV::N("E'"@)] })),
        ((5, TagV::T(")"@)), ActionV::Reduce(RuleV { left: "E'"@, right: seq![SymV::T("+"@), SymV::N("T"@), SymV::N("E'"@)] })),
        ((18, TagV::T("*"@)), ActionV::Reduce(RuleV { left: "F"@, right: seq![SymV::T("("@), SymV::N("E"@), SymV::T(")"@)] })),
        ((8, TagV::T("*"@)), ActionV::Shift(17)),
        ((13, TagV::T("-"@)), ActionV::Shift(15)),
        ((0, TagV::End), ActionV::Reduce(RuleV { left: "E'"@, right: seq![] })),
        ((19, TagV::T("n"@)), ActionV::Shift(21)),
        ((0, TagV::T("-"@)), ActionV::Shift(15)),
        ((9, TagV::T("/"@)), ActionV::Shift(16)),
        ((4, TagV::T(")"@)), ActionV::Reduce(RuleV { left: "T'"@, right: seq![SymV::T("*"@), SymV::N("F"@), SymV::N("T'"@)] })),
        ((6, TagV::T("-"@)), ActionV::Reduce(RuleV { left: "T'"@, right: seq![] })),
        ((2, TagV::End), ActionV::Accept),
        ((12, TagV::T(")"@)), ActionV::Reduce(RuleV { left: "E'"@, right: seq![SymV::T("-"@), SymV::N("T"@), SymV::N("E'"@)] })),
        ((11, TagV::T(")"@)), ActionV::Reduce(RuleV { left: "E"@, right: seq![SymV::N("T"@), SymV::N("E'"@)] })),
        ((6, TagV::T("/"@)), ActionV::Shift(16)),
        ((13, TagV::End), ActionV::Reduce(RuleV { left: "E'"@, right: seq![] })),
        ((8, TagV::T("/"@)), ActionV::Shift(16)),
        ((21, TagV::T("*"@)), ActionV::Reduce(RuleV { left: "F"@, right: seq![SymV::T("n"@)] })),
        ((1, TagV::End), ActionV::Reduce(RuleV { left: "T"@, right: seq![SymV::N("F"@), SymV::N("T'"@)] })),
        ((16, TagV::T("("@)), ActionV::Shift(19)),
        ((6, TagV::End), ActionV::Reduce(RuleV { left: "T'"@, right: seq![] })),
        ((20, TagV::T(")"@)), ActionV::Reduce(RuleV { left: "T'"@, right: seq![SymV::T("/"@), SymV::N("F"@), SymV::N("T'"@)] })),
        ((18, TagV::T("+"@)), ActionV::Reduce(RuleV { left: "F"@, right: seq![SymV::T("("@), SymV::N("E"@), SymV::T(")"@)] })),
        ((11, TagV::End), ActionV::Reduce(RuleV { left: "E"@, right: seq![SymV::N("T"@), SymV::N("E'"@)] })),
        ((20, TagV::End), ActionV::Reduce(RuleV { left: "T'"@, right: seq![SymV::T("/"@), SymV::N("F"@), SymV::N("T'"@)] })),
        ((4, TagV::T("+"@)), ActionV::Reduce(RuleV { left: "T'"@, right: seq![SymV::T("*"@), SymV::N("F"@), SymV::N("T'"@)] })),
        ((4, TagV::T("-"@)), ActionV::Reduce(RuleV { left: "T'"@, right: seq![SymV::T("*"@), SymV::N("F"@), SymV::N("T'"@)] })),
        ((6, TagV::T("+"@)), ActionV::Reduce(RuleV { left: "T'"@, right: seq![] })),
        ((8, TagV::T("+"@)), ActionV::Reduce(RuleV { left: "T'"@, right: seq![] })),
        ((8, TagV::End), ActionV::Reduce(RuleV { left: "T'"@, right: seq![] })),
        ((0, TagV::T(")"@)), ActionV::Reduce(RuleV { left: "E'"@, right: seq![] })),
        ((21, TagV::T(")"@)), ActionV::Reduce(RuleV { left: "F"@, right: seq![SymV::T("n"@)] })),
        ((3, TagV::T("+"@)), ActionV::Shift(7)),
    ]
}

/// The GOTO entries of [`get_parse_tables`], in order.
pub open spec fn calc_goto() -> Seq<((int, Seq<char>), int)> {
    seq![
        ((3, "E'"@), 12),
        ((8, "T'"@), 20),
        ((16, "F"@), 8),
        ((13, "E'"@), 11),
        ((14, "F"@), 9),
        ((17, "F"@), 6),
        ((15, "T"@), 3),
        ((0, "E'"@), 5),
        ((19, "T"@), 13),
        ((7, "F"@), 9),
        ((15, "F"@), 9),
        ((19, "E"@), 10),
        ((6, "T'"@), 4),
        ((19, "F"@), 9),
        ((14, "T"@), 13),
        ((7, "T"@), 0),
        ((14, "E"@), 2),
        ((9, "T'"@), 1),
    ]
}

/// The tables of [`get_parse_tables`] as a value.
pub open spec fn calc_tables() -> TablesV {
    TablesV { start: 14, action: calc_action(), goto: calc_goto() }
}

/// The LR(1) tables of the arithmetic grammar `E -> T E'`, `E' -> + T E' | - T E' | <empty>`, `T -> F T'`, `T' -> * F T' | / F T' | <empty>`, `F -> n | ( E )`.
#[verifier::rlimit(100)]
pub fn get_parse_tables() -> (r: ParseTables)
    ensures
        r@ == calc_tables(),
        accepts_only_at_end(r@),
{
    let mut action: Vec<((i32, TerminalOrFinish), LR1Action)> = Vec::new();
    let mut goto: Vec<((i32, Nonterminal), i32)> = Vec::new();
    action.push(reduce_entry(9, term_tag("+"), "T'", rhs0()));
    action.push(shift_entry(15, term_tag("("), 19));
    action.push(reduce_entry(18, TerminalOrFinish::Finish, "F", rhs3(t_sym("("), n_sym("E"), t_sym(")"))));
    action.push(reduce_entry(21, term_tag("/"), "F", rhs1(t_sym("n"))));
    action.push(reduce_entry(1, term_tag(")"), "T", rhs2(n_sym("F"), n_sym("T'"))));
    action.push(reduce_entry(9, term_tag(")"), "T'", rhs0()));
    action.push(shift_entry(7, term_tag("n"), 21));
    action.push(reduce_entry(1, term_tag("+"), "T", rhs2(n_sym("F"), n_sym("T'"))));
    action.push(reduce_entry(1, term_tag("-"), "T", rhs2(n_sym("F"), n_sym("T'"))));
    action.push(shift_entry(10, term_tag(")"), 18));
    action.push(reduce_entry(8, term_tag("-"), "T'", rhs0()));
    action.push(shift_entry(19, term_tag("("), 19));
    action.push(shift_entry(16, term_tag("n"), 21));
    action.push(reduce_entry(9, TerminalOrFinish::Finish, "T'", rhs0()));
    action.push(reduce_entry(21, term_tag("-"), "F", rhs1(t_sym("n"))));
    action.push(reduce_entry(9, term_tag("-"), "T'", rhs0()));
    action.push(reduce_entry(3, term_tag(")"), "E'", rhs0()));
    action.push(shift_entry(17, term_tag("("), 19));
    action.push(shift_entry(13, term_tag("+"), 7));
    action.push(shift_entry(9, term_tag("*"), 17));
    action.push(reduce_entry(20, term_tag("+"), "T'", rhs3(t_sym("/"), n_sym("F"), n_sym("T'"))));
    action.push(shift_entry(7, term_tag("("), 19));
    action.push(shift_entry(0, term_tag("+"), 7));
    action.push(shift_entry(17, term_tag("n"), 21));
    action.push(reduce_entry(5, TerminalOrFinish::Finish, "E'", rhs3(t_sym("+"), n_sym("T"), n_sym("E'"))));
    action.push(reduce_entry(3, TerminalOrFinish::Finish, "E'", rhs0()));
    action.push(shift_entry(15, term_tag("n"), 21));
    action.push(shift_entry(3, term_tag("-"), 15));
    action.push(reduce_entry(4, TerminalOrFinish::Finish, "T'", rhs3(t_sym("*"), n_sym("F"), n_sym("T'"))));
    action.push(shift_entry(14, term_tag("("), 19));
    action.push(reduce_entry(13, term_tag(")"), "E'", rhs0()));
    action.push(reduce_entry(18, term_tag("/"), "F", rhs3(t_sym("("), n_sym("E"), t_sym(")"))));
    action.push(reduce_entry(18, term_tag(")"), "F", rhs3(t_sym("("), n_sym("E"), t_sym(")"))));
    action.push(reduce_entry(21, TerminalOrFinish::Finish, "F", rhs1(t_sym("n"))));
    action.push(shift_entry(14, term_tag("n"), 21));
    action.push(reduce_entry(20, term_tag("-"), "T'", rhs3(t_sym("/"), n_sym("F"), n_sym("T'"))));
    action.push(reduce_entry(18, term_tag("-"), "F", rhs3(t_sym("("), n_sym("E"), t_sym(")"))));
    action.push(reduce_entry(8, term_tag(")"), "T'", rhs0()));
    action.push(reduce_entry(6, term_tag(")"), "T'", rhs0()));
    action.push(reduce_entry(21, term_tag("+"), "F", rhs1(t_sym("n"))));
    action.push(shift_entry(6, term_tag("*"), 17));
    action.push(reduce_entry(12, TerminalOrFinish::Finish, "E'", rhs3(t_sym("-"), n_sym("T"), n_sym("E'"))));
    action.push(reduce_entry(5, term_tag(")"), "E'", rhs3(t_sym("+"), n_sym("T"), n_sym("E'"))));
    action.push(reduce_entry(18, term_tag("*"), "F", rhs3(t_sym("("), n_sym("E"), t_sym(")"))));
    action.push(shift_entry(8, term_tag("*"), 17));
    action.push(shift_entry(13, term_tag("-"), 15));
    action.push(reduce_entry(0, TerminalOrFinish::Finish, "E'", rhs0()));
    action.push(shift_entry(19, term_tag("n"), 21));
    action.push(shift_entry(0, term_tag("-"), 15));
    action.push(shift_entry(9, term_tag("/"), 16));
    action.push(reduce_entry(4, term_tag(")"), "T'", rhs3(t_sym("*"), n_sym("F"), n_sym("T'"))));
    action.push(reduce_entry(6, term_tag("-"), "T'", rhs0()));
    action.push(accept_entry(2));
    action.push(reduce_entry(12, term_tag(")"), "E'", rhs3(t_sym("-"), n_sym("T"), n_sym("E'"))));
    action.push(reduce_entry(11, term_tag(")"), "E", rhs2(n_sym("T"), n_sym("E'"))));
    action.push(shift_entry(6, term_tag("/"), 16));
    action.push(reduce_entry(13, TerminalOrFinish::Finish, "E'", rhs0()));
    action.push(shift_entry(8, term_tag("/"), 16));
    action.push(reduce_entry(21, term_tag("*"), "F", rhs1(t_sym("n"))));
    action.push(reduce_entry(1, TerminalOrFinish::Finish, "T", rhs2(n_sym("F"), n_sym("T'"))));
    action.push(shift_entry(16, term_tag("("), 19));
    action.push(reduce_entry(6, TerminalOrFinish::Finish, "T'", rhs0()));
    action.push(reduce_entry(20, term_tag(")"), "T'", rhs3(t_sym("/"), n_sym("F"), n_sym("T'"))));
    action.push(reduce_entry(18, term_tag("+"), "F", rhs3(t_sym("("), n_sym("E"), t_sym(")"))));
    action.push(reduce_entry(11, TerminalOrFinish::Finish, "E", rhs2(n_sym("T"), n_sym("E'"))));
    action.push(reduce_entry(20, TerminalOrFinish::Finish, "T'", rhs3(t_sym("/"), n_sym("F"), n_sym("T'"))));
    action.push(reduce_entry(4, term_tag("+"), "T'", rhs3(t_sym("*"), n_sym("F"), n_sym("T'"))));
    action.push(reduce_entry(4, term_tag("-"), "T'", rhs3(t_sym("*"), n_sym("F"), n_sym("T'"))));
    action.push(reduce_entry(6, term_tag("+"), "T'", rhs0()));
    action.push(reduce_entry(8, term_tag("+"), "T'", rhs0()));
    action.push(reduce_entry(8, TerminalOrFinish::Finish, "T'", rhs0()));
    action.push(reduce_entry(0, term_tag(")"), "E'", rhs0()));
    action.push(reduce_entry(21, term_tag(")"), "F", rhs1(t_sym("n"))));
    action.push(shift_entry(3, term_tag("+"), 7));
    goto.push(goto_entry(3, "E'", 12));
    goto.push(goto_entry(8, "T'", 20));
    goto.push(goto_entry(16, "F", 8));
    goto.push(goto_entry(13, "E'", 11));
    goto.push(goto_entry(14, "F", 9));
    goto.push(goto_entry(17, "F", 6));
    goto.push(goto_entry(15, "T", 3));
    goto.push(goto_entry(0, "E'", 5));
    goto.push(goto_entry(19, "T", 13));
    goto.push(goto_entry(7, "F", 9));
    goto.push(goto_entry(15, "F", 9));
    goto.push(goto_entry(19, "E", 10));
    goto.push(goto_entry(6, "T'", 4));
    goto.push(goto_entry(19, "F", 9));
    goto.push(goto_entry(14, "T", 13));
    goto.push(goto_entry(7, "T", 0));
    goto.push(goto_entry(14, "E", 2));
    goto.push(goto_entry(9, "T'", 1));
    let r = ParseTables { start: 14, action, goto };
    assert(r@.action =~~= calc_action());
    assert(r@.goto =~= calc_goto());
    assert(accepts_only_at_end(r@));
    r
}

} // verus!
