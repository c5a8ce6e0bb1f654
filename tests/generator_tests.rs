use std::collections::{HashMap, HashSet};

use compgen::dfa::DetermenisticLR1Automaton;
use compgen::first::{calculate_first, TerminalOrEmpty};
use compgen::grammar::{
    add_fake_root, GeneratorError, Grammar, Nonterminal, ParseTree, Rule, Term, Terminal,
    TerminalOrFinish, Token, GRAMMAR_ROOT_NAME,
};
use compgen::meta::{get_grammar_from_tree, Lexer};
use compgen::meta_tables::get_parse_tables;
use compgen::nfa::NonDeterministicLR1Automaton;
use compgen::tables::ParseTablesType;
use compgen::grammar::ParseTables;

fn nt(s: &str) -> Nonterminal {
    Nonterminal(String::from(s))
}

fn tn(s: &str) -> Term {
    Term::Nonterminal(nt(s))
}

fn tt(s: &str) -> Term {
    Term::Terminal(Terminal(String::from(s)))
}

fn rule(left: &str, right: Vec<Term>) -> Rule {
    Rule { left: nt(left), right }
}

fn get_arithmetic_grammar() -> Grammar {
    let mut grammar = Grammar::new(
        nt("S"),
        vec![
            rule("S", vec![tn("M"), tn("Topt")]),
            rule("Topt", vec![tt("+"), tn("M"), tn("Topt")]),
            rule("Topt", vec![]),
            rule("M", vec![tn("N"), tn("Mopt")]),
            rule("Mopt", vec![tt("*"), tn("N"), tn("Mopt")]),
            rule("Mopt", vec![]),
            rule("N", vec![tt("x")]),
            rule("N", vec![tt("("), tn("S"), tt(")")]),
        ],
    );
    add_fake_root(&mut grammar);
    grammar
}

fn get_cbs_grammar() -> Grammar {
    let mut grammar = Grammar::new(
        nt("S"),
        vec![rule("S", vec![]), rule("S", vec![tt("("), tn("S"), tt(")"), tn("S")])],
    );
    add_fake_root(&mut grammar);
    grammar
}

fn get_meta_grammar() -> Grammar {
    let mut grammar = Grammar::new(
        nt("S"),
        vec![
            rule("S", vec![tn("A"), tn("R")]),
            rule("A", vec![tt("open"), tt("ax"), tt("open"), tt("nterm"), tt("close"), tt("close")]),
            rule("R", vec![tn("T"), tn("R")]),
            rule("R", vec![]),
            rule("T", vec![tt("open"), tt("nterm"), tn("P"), tt("close")]),
            rule("P", vec![tt("open"), tn("I"), tt("close"), tn("P")]),
            rule("P", vec![]),
            rule("I", vec![tt("term"), tn("I")]),
            rule("I", vec![tt("nterm"), tn("I")]),
            rule("I", vec![]),
        ],
    );
    add_fake_root(&mut grammar);
    grammar
}

fn strings_to_tokens(v: &[&str]) -> Vec<Token<()>> {
    v.iter()
        .map(|x| Token::<()> { tag: TerminalOrFinish::Terminal(Terminal(x.to_string())), attribute: () })
        .chain([Token::<()> { tag: TerminalOrFinish::Finish, attribute: () }])
        .collect()
}

fn first_map(grammar: &Grammar) -> HashMap<Nonterminal, HashSet<TerminalOrEmpty>> {
    calculate_first(grammar).into_iter().map(|(n, s)| (n, s.into_iter().collect())).collect()
}

fn tables_of(grammar: &Grammar, method: ParseTablesType) -> Result<ParseTables, GeneratorError> {
    let nfa = NonDeterministicLR1Automaton::from_grammar(grammar);
    let dfa = DetermenisticLR1Automaton::from_non_deterministic(&nfa);
    ParseTables::from_automaton(&dfa, method)
}

fn print_tables(tables: &ParseTables) {
    println!("Start: {}", tables.start);
    for ((state, term), action) in &tables.action {
        println!("({}x{:?})->{:?}", state, term, action);
    }
    for ((state, term), new_state) in &tables.goto {
        println!("({}x{})->{}", state, term.0, new_state);
    }
}

#[test]
fn test_non_deterministic_automaton_cbs_graphviz() {
    let grammar = get_cbs_grammar();
    let automaton = NonDeterministicLR1Automaton::from_grammar(&grammar);
    println!("{}", automaton.to_graphviz());
}

#[test]
fn test_non_deterministic_automaton_arithmetic_graphviz() {
    let grammar = get_arithmetic_grammar();
    let automaton = NonDeterministicLR1Automaton::from_grammar(&grammar);
    println!("{}", automaton.to_graphviz());
}

#[test]
fn test_deterministic_automaton_cbs_graphviz() {
    let grammar = get_cbs_grammar();
    let nfa = NonDeterministicLR1Automaton::from_grammar(&grammar);
    let dfa = DetermenisticLR1Automaton::from_non_deterministic(&nfa);
    println!("{}", dfa.to_graphviz());
}

#[test]
fn test_deterministic_automaton_arithmetic_graphviz() {
    let grammar = get_arithmetic_grammar();
    let nfa = NonDeterministicLR1Automaton::from_grammar(&grammar);
    let dfa = DetermenisticLR1Automaton::from_non_deterministic(&nfa);
    println!("{}", dfa.to_graphviz());
}

#[test]
fn test_first_cbs() {
    let grammar = get_cbs_grammar();
    let first = first_map(&grammar);
    assert_eq!(
        first,
        [
            (
                Nonterminal(String::from(GRAMMAR_ROOT_NAME)),
                [TerminalOrEmpty::Empty, TerminalOrEmpty::Terminal(Terminal(String::from("(")))]
                    .into_iter()
                    .collect()
            ),
            (
                Nonterminal(String::from("S")),
                [TerminalOrEmpty::Empty, TerminalOrEmpty::Terminal(Terminal(String::from("(")))]
                    .into_iter()
                    .collect()
            )
        ]
        .into_iter()
        .collect()
    )
}

#[test]
fn test_first_arithmetic() {
    let grammar = get_arithmetic_grammar();
    let first = first_map(&grammar);
    let t = |s: &str| TerminalOrEmpty::Terminal(Terminal(String::from(s)));
    assert_eq!(
        first,
        [
            (Nonterminal(String::from(GRAMMAR_ROOT_NAME)), [t("("), t("x")].into_iter().collect()),
            (Nonterminal(String::from("S")), [t("("), t("x")].into_iter().collect()),
            (Nonterminal(String::from("Topt")), [TerminalOrEmpty::Empty, t("+")].into_iter().collect()),
            (Nonterminal(String::from("M")), [t("("), t("x")].into_iter().collect()),
            (Nonterminal(String::from("Mopt")), [TerminalOrEmpty::Empty, t("*")].into_iter().collect()),
            (Nonterminal(String::from("N")), [t("("), t("x")].into_iter().collect()),
        ]
        .into_iter()
        .collect()
    );
}

#[test]
fn test_tables_cbs() {
    let grammar = get_cbs_grammar();
    let tables = tables_of(&grammar, ParseTablesType::LR1);
    print_tables(&tables.unwrap());
}

#[test]
fn test_tables_arithmetic() {
    let grammar = get_arithmetic_grammar();
    let tables = tables_of(&grammar, ParseTablesType::LR1);
    print_tables(&tables.unwrap());
}

#[test]
fn test_parse_cbs() {
    for method in [ParseTablesType::LR1, ParseTablesType::LALR] {
        let grammar = get_cbs_grammar();
        let tables = tables_of(&grammar, method).unwrap();

        let empty_cbs = strings_to_tokens(&[]);
        let res = ParseTree::from_tables_and_tokens(&tables, &empty_cbs);
        println!("{}", res.expect("no parse tree was returned").to_graphviz());

        let cbs = strings_to_tokens(&["(", ")", "(", "(", ")", ")"]);
        let res = ParseTree::from_tables_and_tokens(&tables, &cbs);
        println!("{}", res.expect("no parse tree was returned").to_graphviz());

        let not_cbs = strings_to_tokens(&["(", ")", "(", "(", ")"]);
        let res = ParseTree::from_tables_and_tokens(&tables, &not_cbs);
        println!("{:?}", res.expect_err("mskekg"));
    }
}

#[test]
fn test_parse_arithmetic() {
    for method in [ParseTablesType::LR1, ParseTablesType::LALR] {
        let grammar = get_arithmetic_grammar();
        let tables = tables_of(&grammar, method).unwrap();

        let correct = strings_to_tokens(&["x", "+", "x", "*", "(", "x", "+", "x", ")"]);
        let res = ParseTree::from_tables_and_tokens(&tables, &correct);
        println!("{}", res.expect("no parse tree was returned").to_graphviz());

        let incorrect = strings_to_tokens(&["x", "+", "x", "*", "(", "x", "+", ")"]);
        let res = ParseTree::from_tables_and_tokens(&tables, &incorrect);
        assert!(res.is_err());
    }
}

const ARITHMETIC_TEXT: &str = r#"
                ' аксиома
                < axiom <E > >
                ' правила грамматики
                <E <T E' > >
                <E' <+ T E' >
                <>>
                <T <F T' > >
                <T' <* F T' >
                <>>
                <F <n >
                <( E ) > >
                "#;

const META_TEXT: &str = r#"
                <axiom <S>>
                <S <A R>>
                <A <open ax open nterm close close>>
                <R <T R>
                    <>>
                <T <open nterm P close>>
                <P  <open I close P>
                    <>>
                <I  <term I>
                    <nterm I>
                    <>>
            "#;

#[test]
fn test_lexical_analysis() {
    let mut lexer = Lexer::new(ARITHMETIC_TEXT);
    let tokens = lexer.get_tokens();
    println!("{:?}", tokens);
}

#[test]
fn test_parse_meta_grammar() {
    let grammar = get_meta_grammar();
    let nfa = NonDeterministicLR1Automaton::from_grammar(&grammar);
    let dfa = DetermenisticLR1Automaton::from_non_deterministic(&nfa);
    println!("{}", dfa.to_graphviz());
    let tables = ParseTables::from_automaton(&dfa, ParseTablesType::LR1).unwrap();
    let mut lexer = Lexer::new(META_TEXT);
    let tokens = lexer.get_tokens();
    let tree = ParseTree::from_tables_and_tokens(&tables, &tokens).unwrap();
    println!("{}", tree.to_graphviz());

    let parsed = get_grammar_from_tree(&tree).unwrap();
    assert_eq!(parsed, grammar);
}

#[test]
fn test_tables_to_literal() {
    let grammar = get_meta_grammar();
    let tables = tables_of(&grammar, ParseTablesType::LR1).unwrap();
    println!("{}", tables.to_rust_function());
}

const TEMPLATE: &str = "use std::collections::HashMap;\n//@START_PARSE_TABLES@\nfn old() {}\n//@END_PARSE_TABLES@\n";

#[test]
fn test_tables_to_source() {
    let grammar = get_meta_grammar();
    let tables = tables_of(&grammar, ParseTablesType::LR1).unwrap();
    println!("{}", tables.to_rust_source(TEMPLATE).unwrap());
}

#[test]
fn test_not_lr1() {
    let input = "
    <axiom <S>>
    <S <>
       <a S a>>";
    let res = ParseTables::from_string(input, ParseTablesType::LR1);
    let err = res.unwrap_err();
    assert!(matches!(err, GeneratorError::ShiftReduceConflict));
}

#[test]
fn test_not_lalr() {
    let input = "
    <axiom <S>>
    <S <a E a>
       <b E b>
       <a F b>
       <b F a>>
    <E <e>>
    <F <e>>";
    let res = ParseTables::from_string(input, ParseTablesType::LALR);
    let err = res.unwrap_err();
    assert!(matches!(err, GeneratorError::ReduceReduceConflict));
    let res = ParseTables::from_string(input, ParseTablesType::LR1);
    assert!(res.is_ok());
}

#[test]
fn test_undeclared_nterm_usage() {
    let input = "
    <axiom <S>>
    <S <A>>";
    let res = ParseTables::from_string(input, ParseTablesType::LR1);
    let err = res.unwrap_err();
    let ok = match err {
        GeneratorError::UndeclaredNonterminal(nterm) => nterm.0 == "A",
        _ => false,
    };
    assert!(ok);
}

#[test]
fn test_bootstrapped_tables_parse_meta_grammar() {
    let tables = get_parse_tables();
    let mut lexer = Lexer::new(META_TEXT);
    let tokens = lexer.get_tokens();
    let tree = ParseTree::from_tables_and_tokens(&tables, &tokens).unwrap();
    let parsed = get_grammar_from_tree(&tree).unwrap();
    assert_eq!(parsed, get_meta_grammar());
}
