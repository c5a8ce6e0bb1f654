use compgen::calc_tables::get_parse_tables;
use compgen::calculator::{CalculatorError, DomainAttribute, Lexer};
use compgen::grammar::{ParseTree, TerminalOrFinish};

#[test]
fn test_calculator_lexer() {
    let mut lexer = Lexer::new("(1+2)*3-4/5");
    let tokens = lexer.get_tokens();
    println!("{:?}", tokens);
}

#[test]
fn tests_test_calculator_lexer() {
    let mut lexer = Lexer::new("(1+2)*3-4/5");
    let tokens = lexer.get_tokens().unwrap();
    println!("{:?}", tokens);
}

#[test]
fn test_calculator_parser() {
    let mut lexer = Lexer::new("(1+2)*3-4/5");
    let tokens = lexer.get_tokens().unwrap();
    let tables = get_parse_tables();
    let tree = ParseTree::from_tables_and_tokens(&tables, &tokens).unwrap();
    println!("{}", tree.to_graphviz());
}

#[test]
fn calculator_lexer_reads_numbers_and_operators() {
    let mut lexer = Lexer::new(" 12 +\n(305)");
    let tokens = lexer.get_tokens().unwrap();
    let tags: Vec<String> = tokens
        .iter()
        .map(|t| match &t.tag {
            TerminalOrFinish::Terminal(x) => x.0.clone(),
            TerminalOrFinish::Finish => String::from("$"),
        })
        .collect();
    assert_eq!(tags, vec!["n", "+", "(", "n", ")", "$"]);
    assert_eq!(tokens[0].attribute.domain_attribute.as_number(), Some(12));
    assert_eq!(tokens[3].attribute.domain_attribute.as_number(), Some(305));
    assert_eq!(tokens[1].attribute.domain_attribute.as_number(), None);
    assert_eq!(tokens[3].attribute.fragment.begin.line, 2);
    assert_eq!(tokens[3].attribute.fragment.begin.column, 2);
}

#[test]
fn calculator_lexer_rejects_unknown_character() {
    let mut lexer = Lexer::new("1 + x");
    match lexer.get_tokens() {
        Err(CalculatorError::LexerError(c)) => {
            assert_eq!(c.index, 4);
            assert_eq!(c.column, 5);
        },
        other => panic!("unexpected {:?}", other),
    }
}

#[test]
fn calculator_lexer_rejects_number_too_large() {
    let mut lexer = Lexer::new("99999999999");
    assert!(matches!(lexer.get_tokens(), Err(CalculatorError::LexerError(_))));
    let mut lexer = Lexer::new("2147483647");
    let tokens = lexer.get_tokens().unwrap();
    assert!(matches!(tokens[0].attribute.domain_attribute, DomainAttribute::Number(2147483647)));
}

#[test]
fn calculator_tables_reject_unbalanced_expression() {
    let mut lexer = Lexer::new("(1+2");
    let tokens = lexer.get_tokens().unwrap();
    let tables = get_parse_tables();
    let err = ParseTree::from_tables_and_tokens(&tables, &tokens).unwrap_err();
    assert!(matches!(err.token.tag, TerminalOrFinish::Finish));
}

fn children(t: &ParseTree<compgen::calculator::TokenAttribute>) -> &Vec<ParseTree<compgen::calculator::TokenAttribute>> {
    t.as_internal().unwrap().1
}

fn op(t: &ParseTree<compgen::calculator::TokenAttribute>) -> String {
    t.as_leaf().unwrap().tag.as_terminal().unwrap().0.clone()
}

fn eval_e(t: &ParseTree<compgen::calculator::TokenAttribute>) -> Option<f64> {
    let c = children(t);
    Some(eval_t(&c[0])? + eval_et(&c[1])?)
}

fn eval_et(t: &ParseTree<compgen::calculator::TokenAttribute>) -> Option<f64> {
    let c = children(t);
    if c.is_empty() {
        return Some(0.0);
    }
    let r = eval_t(&c[1])? + eval_et(&c[2])?;
    Some(if op(&c[0]) == "-" { -r } else { r })
}

fn eval_t(t: &ParseTree<compgen::calculator::TokenAttribute>) -> Option<f64> {
    let c = children(t);
    Some(eval_f(&c[0])? * eval_tt(&c[1])?)
}

fn eval_tt(t: &ParseTree<compgen::calculator::TokenAttribute>) -> Option<f64> {
    let c = children(t);
    if c.is_empty() {
        return Some(1.0);
    }
    let r = eval_f(&c[1])? * eval_tt(&c[2])?;
    if op(&c[0]) == "/" {
        if r == 0.0 {
            return None;
        }
        return Some(1.0 / r);
    }
    Some(r)
}

fn eval_f(t: &ParseTree<compgen::calculator::TokenAttribute>) -> Option<f64> {
    let c = children(t);
    if c.len() == 1 {
        Some(f64::from(c[0].as_leaf().unwrap().attribute.domain_attribute.as_number().unwrap()))
    } else {
        eval_e(&c[1])
    }
}

fn evaluate(text: &str) -> Option<f64> {
    let mut lexer = Lexer::new(text);
    let tokens = lexer.get_tokens().ok()?;
    let tree = ParseTree::from_tables_and_tokens(&get_parse_tables(), &tokens).ok()?;
    eval_e(&tree)
}

#[test]
fn arithmetic_scenario_evaluates_through_the_driver() {
    assert_eq!(evaluate("(1+2)*3-4/5"), Some(8.2));
    assert_eq!(evaluate("(1+2)*3-4/0"), None);
}
