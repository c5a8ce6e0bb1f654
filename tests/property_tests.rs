use compgen::dfa::DetermenisticLR1Automaton;
use compgen::grammar::{
    add_fake_root, GeneratorError, Grammar, Nonterminal, ParseTables, ParseTree, Rule, Term,
    Terminal, TerminalOrFinish, Token, LR1Action,
};
use compgen::meta::Lexer;
use compgen::nfa::NonDeterministicLR1Automaton;
use compgen::tables::{try_add_action, ParseTablesType};
use compgen::calc_tables;
use compgen::calculator;

fn nt(s: &str) -> Nonterminal {
    Nonterminal(String::from(s))
}

fn tn(s: &str) -> Term {
    Term::Nonterminal(nt(s))
}

fn tt(s: &str) -> Term {
    Term::Terminal(Terminal(String::from(s)))
}

fn tokens(v: &[&str]) -> Vec<Token<()>> {
    v.iter()
        .map(|x| Token::<()> { tag: TerminalOrFinish::Terminal(Terminal(x.to_string())), attribute: () })
        .chain([Token::<()> { tag: TerminalOrFinish::Finish, attribute: () }])
        .collect()
}

fn leaves<T>(t: &ParseTree<T>, out: &mut Vec<String>) {
    match t {
        ParseTree::Leaf(tok) => match &tok.tag {
            TerminalOrFinish::Terminal(x) => out.push(x.0.clone()),
            TerminalOrFinish::Finish => out.push(String::from("$")),
        },
        ParseTree::Internal(_, ch) => {
            for c in ch {
                leaves(c, out);
            }
        },
    }
}

fn balanced() -> Grammar {
    let mut g = Grammar::new(nt("S"), vec![
        Rule { left: nt("S"), right: vec![] },
        Rule { left: nt("S"), right: vec![tt("("), tn("S"), tt(")"), tn("S")] },
    ]);
    add_fake_root(&mut g);
    g
}

fn tables(g: &Grammar, t: ParseTablesType) -> Result<ParseTables, GeneratorError> {
    let nfa = NonDeterministicLR1Automaton::from_grammar(g);
    let dfa = DetermenisticLR1Automaton::from_non_deterministic(&nfa);
    ParseTables::from_automaton(&dfa, t)
}

#[test]
fn balanced_parentheses_scenario() {
    let t = tables(&balanced(), ParseTablesType::LR1).unwrap();
    for ok in [&[][..], &["(", ")"][..], &["(", ")", "(", "(", ")", ")"][..]] {
        let tree = ParseTree::from_tables_and_tokens(&t, &tokens(ok)).unwrap();
        let mut got = Vec::new();
        leaves(&tree, &mut got);
        assert_eq!(got, ok.iter().map(|s| s.to_string()).collect::<Vec<_>>());
        match tree {
            ParseTree::Internal(n, _) => assert_eq!(n.0, "S"),
            _ => panic!("root is a leaf"),
        }
    }
    let bad = ParseTree::from_tables_and_tokens(&t, &tokens(&["(", ")", "(", "(", ")"]));
    assert!(matches!(bad.unwrap_err().token.tag, TerminalOrFinish::Finish));
}

#[test]
fn arithmetic_scenario_parses_expression() {
    let text = "<axiom <E>>
    <E <T E'>>
    <E' <+ T E'> <- T E'> <>>
    <T <F T'>>
    <T' <* F T'> </ F T'> <>>
    <F <n> <( E )>>";
    let t = ParseTables::from_string(text, ParseTablesType::LR1).unwrap();
    let mut lexer = calculator::Lexer::new("(1+2)*3-4/5");
    let toks = lexer.get_tokens().unwrap();
    let tree = ParseTree::from_tables_and_tokens(&t, &toks).unwrap();
    let mut got = Vec::new();
    leaves(&tree, &mut got);
    assert_eq!(got, vec!["(", "n", "+", "n", ")", "*", "n", "-", "n", "/", "n"]);
    let tree2 = ParseTree::from_tables_and_tokens(&calc_tables::get_parse_tables(), &toks).unwrap();
    let mut got2 = Vec::new();
    leaves(&tree2, &mut got2);
    assert_eq!(got, got2);
}

#[test]
fn lalr_tables_accept_what_lr1_tables_accept() {
    let lr1 = tables(&balanced(), ParseTablesType::LR1).unwrap();
    let lalr = tables(&balanced(), ParseTablesType::LALR).unwrap();
    for input in [&[][..], &["(", ")"][..], &["(", "(", ")", ")", "(", ")"][..], &["(", "("][..], &[")"][..]] {
        let a = ParseTree::from_tables_and_tokens(&lr1, &tokens(input)).is_ok();
        let b = ParseTree::from_tables_and_tokens(&lalr, &tokens(input)).is_ok();
        assert_eq!(a, b);
    }
}

#[test]
fn augmentation_appends_one_root_rule() {
    let g = balanced();
    let roots: Vec<&Rule> = g.rules.iter().filter(|r| r.left.0 == "ROOT").collect();
    assert_eq!(roots.len(), 1);
    assert_eq!(roots[0].right, vec![tn("S")]);
    assert_eq!(g.rules.last().unwrap().left.0, "ROOT");
}

#[test]
fn dfa_has_one_edge_per_symbol() {
    let nfa = NonDeterministicLR1Automaton::from_grammar(&balanced());
    let dfa = DetermenisticLR1Automaton::from_non_deterministic(&nfa);
    for out in &dfa.edges {
        for i in 0..out.len() {
            for j in i + 1..out.len() {
                assert_ne!(out[i].0, out[j].0);
            }
        }
    }
    assert!(dfa.states.len() > 1);
}

#[test]
fn try_add_action_reports_conflicts() {
    let mut t = ParseTables { start: 0, action: vec![], goto: vec![] };
    let a = TerminalOrFinish::Terminal(Terminal(String::from("a")));
    let reduce = LR1Action::Reduce(Rule { left: nt("A"), right: vec![] });
    let reduce2 = LR1Action::Reduce(Rule { left: nt("B"), right: vec![] });
    assert!(try_add_action(&mut t, 0, a.clone(), LR1Action::Shift(1)).is_ok());
    assert!(try_add_action(&mut t, 0, a.clone(), LR1Action::Shift(1)).is_ok());
    assert_eq!(t.action.len(), 1);
    assert!(matches!(try_add_action(&mut t, 0, a.clone(), reduce.clone()), Err(GeneratorError::ShiftReduceConflict)));
    assert!(try_add_action(&mut t, 1, a.clone(), reduce.clone()).is_ok());
    assert!(matches!(try_add_action(&mut t, 1, a.clone(), reduce2), Err(GeneratorError::ReduceReduceConflict)));
    assert!(matches!(try_add_action(&mut t, 1, a, LR1Action::Shift(3)), Err(GeneratorError::ShiftReduceConflict)));
    assert_eq!(t.action.len(), 2);
}

#[test]
fn meta_lexer_tags_and_comments() {
    let mut lexer = Lexer::new("' comment <axiom\n<axiom <Start>> <S <a B>>");
    let toks = lexer.get_tokens();
    let tags: Vec<String> = toks
        .iter()
        .map(|t| match &t.tag {
            TerminalOrFinish::Terminal(x) => x.0.clone(),
            TerminalOrFinish::Finish => String::from("$"),
        })
        .collect();
    assert_eq!(
        tags,
        vec!["open", "ax", "open", "nterm", "close", "close", "open", "nterm", "open", "term", "nterm", "close", "close", "$"]
    );
    assert_eq!(toks[0].attribute.fragment.begin.line, 2);
}

#[test]
fn empty_grammar_text_is_a_parse_error() {
    let res = ParseTables::from_string("", ParseTablesType::LR1);
    assert!(matches!(res, Err(GeneratorError::ParseError(_))));
}

#[test]
fn undeclared_nonterminal_is_named() {
    let res = ParseTables::from_string("<axiom <S>> <S <a Missing>>", ParseTablesType::LALR);
    match res {
        Err(GeneratorError::UndeclaredNonterminal(n)) => assert_eq!(n.0, "Missing"),
        _ => panic!("expected an undeclared non-terminal"),
    }
}

#[test]
fn generated_tables_emit_source() {
    let t = tables(&balanced(), ParseTablesType::LR1).unwrap();
    let f = t.to_rust_function();
    assert!(f.contains("pub fn get_parse_tables() -> ParseTables"));
    assert!(f.contains("LR1Action::Accept"));
    let src = t.to_rust_source("a\n//@START_PARSE_TABLES@\nold\n//@END_PARSE_TABLES@\nb").unwrap();
    assert!(src.starts_with("a\n//@START_PARSE_TABLES@\n"));
    assert!(src.ends_with("//@END_PARSE_TABLES@\nb"));
    assert!(!src.contains("old"));
    assert!(t.to_rust_source("no markers").is_none());
    assert!(t.to_rust_source("//@END_PARSE_TABLES@\n//@START_PARSE_TABLES@\n").is_some());
}

#[test]
fn graphviz_numbers_nodes_in_preorder() {
    let t = tables(&balanced(), ParseTablesType::LR1).unwrap();
    let tree = ParseTree::from_tables_and_tokens(&t, &tokens(&["(", ")"])).unwrap();
    let mut counter = 0;
    let text = tree.to_graphviz_rec(&mut counter);
    assert_eq!(counter, 5);
    assert!(text.starts_with("1 [label=\"S\"]\n1 -> 2\n2 [label=\"(\"]\n"));
    let dot = tree.to_graphviz();
    assert!(dot.starts_with("digraph G {\n") && dot.ends_with("}\n"));
}

#[test]
fn rule_group_named_root_is_rejected() {
    let res = ParseTables::from_string("<axiom <S>> <S <a>> <ROOT <S>>", ParseTablesType::LR1);
    assert!(matches!(res, Err(GeneratorError::RootRedefined)));
}

#[test]
fn first_undeclared_nonterminal_is_named() {
    let res = ParseTables::from_string("<axiom <S>> <S <B> <A>>", ParseTablesType::LR1);
    match res {
        Err(GeneratorError::UndeclaredNonterminal(n)) => assert_eq!(n.0, "B"),
        _ => panic!("expected an undeclared non-terminal"),
    }
}

#[test]
fn meta_lexer_tracks_lines_and_columns() {
    let mut lexer = Lexer::new("<axiom\n  <S>>");
    let toks = lexer.get_tokens();
    assert_eq!(toks[2].attribute.fragment.begin.line, 2);
    assert_eq!(toks[2].attribute.fragment.begin.column, 3);
    assert_eq!(toks[3].attribute.fragment.end.column, 5);
}
