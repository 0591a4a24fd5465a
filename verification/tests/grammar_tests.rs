use calculator::grammar::{Grammar, NonTerminal, Production, Symbol};
use calculator::token::{TerminalSet, TokenType};

#[test]
fn test_grammar_creation() {
    let grammar = Grammar::new();
    assert_eq!(grammar.productions.len(), 10);
    assert_eq!(grammar.start_symbol, NonTerminal::Start);
}

#[test]
fn test_first_sets() {
    let grammar = Grammar::new();

    // FIRST(Factor) should contain Number, LeftParen, and Minus
    let first_factor = grammar.first(&Symbol::NonTerminal(NonTerminal::Factor));
    assert!(first_factor.contains(&TokenType::Number));
    assert!(first_factor.contains(&TokenType::LeftParen));
    assert!(first_factor.contains(&TokenType::Minus));

    // FIRST(Term) should be the same as FIRST(Factor)
    let first_term = grammar.first(&Symbol::NonTerminal(NonTerminal::Term));
    assert_eq!(first_term, first_factor);
}

#[test]
fn test_follow_sets() {
    let grammar = Grammar::new();

    // FOLLOW(Start) should contain EOF
    let follow_start = grammar.follow(NonTerminal::Start);
    assert!(follow_start.contains(&TokenType::Eof));

    // FOLLOW(Expr) should contain EOF, Plus, Minus, and RightParen
    let follow_expr = grammar.follow(NonTerminal::Expr);
    assert!(follow_expr.contains(&TokenType::Eof));
    assert!(follow_expr.contains(&TokenType::RightParen));
    assert!(follow_expr.contains(&TokenType::Plus));
    assert!(follow_expr.contains(&TokenType::Minus));
}

fn all_terminals() -> Vec<TokenType> {
    vec![
        TokenType::Number,
        TokenType::Plus,
        TokenType::Minus,
        TokenType::Star,
        TokenType::Slash,
        TokenType::LeftParen,
        TokenType::RightParen,
        TokenType::Eof,
    ]
}

#[test]
fn first_of_each_terminal_is_the_terminal() {
    let grammar = Grammar::new();
    for t in all_terminals() {
        let first = grammar.first(&Symbol::Terminal(t));
        assert_eq!(first.to_vec(), vec![t]);
        assert_eq!(first.len(), 1);
    }
}

#[test]
fn first_sets_are_exact() {
    let grammar = Grammar::new();
    let leading = vec![TokenType::Number, TokenType::Minus, TokenType::LeftParen];
    for n in [NonTerminal::Start, NonTerminal::Expr, NonTerminal::Term, NonTerminal::Factor] {
        let first = grammar.first(&Symbol::NonTerminal(n));
        assert_eq!(first.to_vec(), leading);
    }
}

#[test]
fn follow_sets_are_exact() {
    let grammar = Grammar::new();
    assert_eq!(grammar.follow(NonTerminal::Start).to_vec(), vec![TokenType::Eof]);
    assert_eq!(
        grammar.follow(NonTerminal::Expr).to_vec(),
        vec![TokenType::Plus, TokenType::Minus, TokenType::RightParen, TokenType::Eof]
    );
    let after_term = vec![
        TokenType::Plus,
        TokenType::Minus,
        TokenType::Star,
        TokenType::Slash,
        TokenType::RightParen,
        TokenType::Eof,
    ];
    assert_eq!(grammar.follow(NonTerminal::Term).to_vec(), after_term);
    assert_eq!(grammar.follow(NonTerminal::Factor).to_vec(), after_term);
}

#[test]
fn first_of_sequence_is_first_of_leading_symbol() {
    let grammar = Grammar::new();
    let empty: Vec<Symbol> = Vec::new();
    assert!(grammar.first_of_sequence(&empty).is_empty());
    let sequence = vec![
        Symbol::Terminal(TokenType::Plus),
        Symbol::NonTerminal(NonTerminal::Term),
    ];
    assert_eq!(grammar.first_of_sequence(&sequence).to_vec(), vec![TokenType::Plus]);
    let sequence = vec![
        Symbol::NonTerminal(NonTerminal::Term),
        Symbol::Terminal(TokenType::Plus),
    ];
    assert_eq!(
        grammar.first_of_sequence(&sequence).to_vec(),
        vec![TokenType::Number, TokenType::Minus, TokenType::LeftParen]
    );
}

#[test]
fn productions_for_selects_by_left_hand_side() {
    let grammar = Grammar::new();
    let ids = |found: Vec<&Production>| found.iter().map(|p| p.id).collect::<Vec<usize>>();
    assert_eq!(ids(grammar.productions_for(NonTerminal::Start)), vec![0]);
    assert_eq!(ids(grammar.productions_for(NonTerminal::Expr)), vec![1, 2, 3]);
    assert_eq!(ids(grammar.productions_for(NonTerminal::Term)), vec![4, 5, 6]);
    assert_eq!(ids(grammar.productions_for(NonTerminal::Factor)), vec![7, 8, 9]);
}

#[test]
fn production_ids_are_dense_and_rule_zero_is_the_start() {
    let grammar = Grammar::new();
    for (i, production) in grammar.productions.iter().enumerate() {
        assert_eq!(production.id, i);
    }
    assert_eq!(grammar.productions[0].lhs, NonTerminal::Start);
    assert_eq!(grammar.productions[0].rhs, vec![Symbol::NonTerminal(NonTerminal::Expr)]);
}

#[test]
fn grammar_construction_is_repeatable() {
    let a = Grammar::new();
    let b = Grammar::default();
    assert_eq!(a.productions, b.productions);
    assert_eq!(a.first_sets, b.first_sets);
    assert_eq!(a.follow_sets, b.follow_sets);
}

#[test]
fn terminal_set_operations() {
    let mut set = TerminalSet::new();
    assert!(set.is_empty());
    assert!(set.insert(TokenType::Star));
    assert!(!set.insert(TokenType::Star));
    let mut other = TerminalSet::singleton(TokenType::Eof);
    assert!(other.extend(&set));
    assert!(!other.extend(&set));
    assert_eq!(other.to_vec(), vec![TokenType::Star, TokenType::Eof]);
    assert!(!other.same(&set));
    assert!(set.same(&TerminalSet::singleton(TokenType::Star)));
}
