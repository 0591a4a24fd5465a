use calculator::grammar::{Grammar, NonTerminal, Symbol};
use calculator::item_set::{ItemSet, LrItem};
use calculator::lr_table::{Action, LrTable};
use calculator::token::TokenType;

fn kernel_of(table: &LrTable, items: Vec<LrItem>) -> ItemSet {
    let mut kernel = ItemSet::new(&table.grammar.productions);
    for item in items {
        kernel.insert(item);
    }
    kernel
}

#[test]
fn test_lr_table_construction() {
    let grammar = Grammar::new();
    let table = LrTable::new(grammar);

    // Check that initial state exists
    assert!(!table.states.is_empty());
    assert_eq!(table.states[0].id, 0);

    // Check that we have some actions
    assert!(!table.action_table.is_empty());

    // Check accept action exists
    let accept_actions: Vec<_> = table
        .action_table
        .values()
        .into_iter()
        .filter(|a| matches!(a, Action::Accept))
        .collect();
    assert_eq!(accept_actions.len(), 1);
}

#[test]
fn test_closure() {
    let grammar = Grammar::new();
    let table = LrTable::new(grammar);

    // Test closure of initial item
    let initial_item = LrItem {
        production_id: 0,
        dot_position: 0,
        lookahead: TokenType::Eof,
    };

    let closure = table.closure(kernel_of(&table, vec![initial_item.clone()]));

    // Closure should contain more than just the kernel item
    assert!(closure.len() > 1);
    assert!(closure.contains(&initial_item));
}

#[test]
fn closure_of_the_initial_item_is_exact() {
    let table = LrTable::new(Grammar::new());
    let initial_item = LrItem { production_id: 0, dot_position: 0, lookahead: TokenType::Eof };
    let closure = table.closure(kernel_of(&table, vec![initial_item]));
    // S' -> . E, $ brings in the rules of E with $, + and -, those of T with
    // these and * and /, and those of F with the same.
    let after_expr = [TokenType::Plus, TokenType::Minus, TokenType::Eof];
    let after_term =
        [TokenType::Plus, TokenType::Minus, TokenType::Star, TokenType::Slash, TokenType::Eof];
    let mut expected = 1;
    for p in 1..=3 {
        for t in after_expr {
            assert!(closure.contains(&LrItem { production_id: p, dot_position: 0, lookahead: t }));
            expected += 1;
        }
    }
    for p in 4..=9 {
        for t in after_term {
            assert!(closure.contains(&LrItem { production_id: p, dot_position: 0, lookahead: t }));
            expected += 1;
        }
    }
    assert_eq!(closure.len(), expected);
    assert_eq!(closure.len(), 40);
    assert!(closure.same(&table.states[0].items));
    assert!(!closure.contains(&LrItem {
        production_id: 1,
        dot_position: 0,
        lookahead: TokenType::RightParen
    }));
}

#[test]
fn closure_of_a_finished_item_adds_nothing() {
    let table = LrTable::new(Grammar::new());
    let item = LrItem { production_id: 8, dot_position: 1, lookahead: TokenType::Plus };
    let closure = table.closure(kernel_of(&table, vec![item]));
    assert_eq!(closure.len(), 1);
    assert!(closure.contains(&item));
}

#[test]
fn closure_takes_lookaheads_from_what_follows() {
    let table = LrTable::new(Grammar::new());
    // F -> ( . E ), *   : the rules of E come in with ) as lookahead.
    let item = LrItem { production_id: 7, dot_position: 1, lookahead: TokenType::Star };
    let closure = table.closure(kernel_of(&table, vec![item]));
    assert!(closure.contains(&LrItem {
        production_id: 1,
        dot_position: 0,
        lookahead: TokenType::RightParen
    }));
    assert!(!closure.contains(&LrItem {
        production_id: 1,
        dot_position: 0,
        lookahead: TokenType::Star
    }));
    assert!(!closure.contains(&LrItem {
        production_id: 3,
        dot_position: 0,
        lookahead: TokenType::Eof
    }));
}

#[test]
fn goto_kernel_moves_the_dot() {
    let table = LrTable::new(Grammar::new());
    let kernel = table.goto_kernel(
        &table.states[0].items,
        Symbol::Terminal(TokenType::Number),
    );
    assert_eq!(kernel.len(), 5);
    assert!(kernel.contains(&LrItem {
        production_id: 8,
        dot_position: 1,
        lookahead: TokenType::Star
    }));
    let none = table.goto_kernel(
        &table.states[0].items,
        Symbol::Terminal(TokenType::Plus),
    );
    assert!(none.is_empty());
}

#[test]
fn the_accepting_entry_is_at_the_end_of_input_behind_the_expression() {
    let table = LrTable::new(Grammar::new());
    let accepting = table.goto(0, NonTerminal::Expr).unwrap();
    assert_eq!(table.action(accepting, TokenType::Eof), Some(&Action::Accept));
    assert!(table.states[accepting].items.contains(&LrItem {
        production_id: 0,
        dot_position: 1,
        lookahead: TokenType::Eof
    }));
    for state in 0..table.states.len() {
        for t in [
            TokenType::Number,
            TokenType::Plus,
            TokenType::Minus,
            TokenType::Star,
            TokenType::Slash,
            TokenType::LeftParen,
            TokenType::RightParen,
            TokenType::Eof,
        ] {
            let is_accept = table.action(state, t) == Some(&Action::Accept);
            assert_eq!(is_accept, state == accepting && t == TokenType::Eof);
        }
    }
}

#[test]
fn construction_is_deterministic() {
    let a = LrTable::new(Grammar::new());
    let b = LrTable::new(Grammar::new());
    assert_eq!(a.states.len(), b.states.len());
    assert_eq!(a.states, b.states);
    assert_eq!(a.action_table, b.action_table);
    assert_eq!(a.goto_table, b.goto_table);
    assert_eq!(a.action_table.len(), b.action_table.len());
    assert_eq!(a.action_table.values(), b.action_table.values());
}

#[test]
fn states_are_numbered_in_the_order_of_discovery() {
    let table = LrTable::new(Grammar::new());
    assert_eq!(table.states.len(), 34);
    assert_eq!(table.action_table.len(), 138);
    for (i, state) in table.states.iter().enumerate() {
        assert_eq!(state.id, i);
    }
    // From the first state the edges are followed symbol by symbol, the
    // terminals before the non-terminals.
    assert_eq!(table.action(0, TokenType::Number), Some(&Action::Shift(1)));
    assert_eq!(table.action(0, TokenType::Minus), Some(&Action::Shift(2)));
    assert_eq!(table.action(0, TokenType::LeftParen), Some(&Action::Shift(3)));
    assert_eq!(table.goto(0, NonTerminal::Expr), Some(4));
    assert_eq!(table.goto(0, NonTerminal::Term), Some(5));
    assert_eq!(table.goto(0, NonTerminal::Factor), Some(6));
    assert_eq!(table.goto(0, NonTerminal::Start), None);
    assert_eq!(table.action(0, TokenType::Plus), None);
}

#[test]
fn no_two_states_hold_the_same_items() {
    let table = LrTable::new(Grammar::new());
    for i in 0..table.states.len() {
        for j in (i + 1)..table.states.len() {
            assert!(!table.states[i].items.same(&table.states[j].items));
        }
    }
}

#[test]
fn reductions_stand_at_the_lookaheads_of_finished_items() {
    let table = LrTable::new(Grammar::new());
    // State 1 is reached on a number from the first state: F -> number .
    assert_eq!(table.action(1, TokenType::Plus), Some(&Action::Reduce(8)));
    assert_eq!(table.action(1, TokenType::Star), Some(&Action::Reduce(8)));
    assert_eq!(table.action(1, TokenType::Eof), Some(&Action::Reduce(8)));
    assert_eq!(table.action(1, TokenType::RightParen), None);
    assert_eq!(table.action(1, TokenType::Number), None);
    assert_eq!(table.action(table.states.len(), TokenType::Eof), None);
    assert_eq!(table.goto(table.states.len(), NonTerminal::Expr), None);
}

#[test]
fn symbol_after_dot_and_symbols_after_dot() {
    let table = LrTable::new(Grammar::new());
    let item = LrItem { production_id: 1, dot_position: 1, lookahead: TokenType::Eof };
    assert_eq!(table.symbol_after_dot(&item), Some(Symbol::Terminal(TokenType::Plus)));
    assert_eq!(
        table.symbols_after_dot(&item, 1),
        vec![Symbol::NonTerminal(NonTerminal::Term)]
    );
    let done = LrItem { production_id: 1, dot_position: 3, lookahead: TokenType::Eof };
    assert_eq!(table.symbol_after_dot(&done), None);
    assert_eq!(table.symbols_after_dot(&done, 0), Vec::<Symbol>::new());
}

fn grammar_of(rules: Vec<(NonTerminal, Vec<Symbol>)>) -> Grammar {
    let productions = rules
        .into_iter()
        .enumerate()
        .map(|(id, (lhs, rhs))| calculator::grammar::Production { id, lhs, rhs })
        .collect();
    let mut grammar = Grammar {
        productions,
        start_symbol: NonTerminal::Start,
        first_sets: Vec::new(),
        follow_sets: Vec::new(),
    };
    grammar.compute_first_sets();
    grammar.compute_follow_sets();
    grammar
}

#[test]
fn the_table_of_the_calculator_is_without_conflict() {
    let table = LrTable::new(Grammar::new());
    assert!(table.is_deterministic());
}

#[test]
fn in_a_conflict_the_reduction_takes_the_place() {
    // S' -> E, E -> E + E, E -> number
    let expr = Symbol::NonTerminal(NonTerminal::Expr);
    let table = LrTable::new(grammar_of(vec![
        (NonTerminal::Start, vec![expr]),
        (NonTerminal::Expr, vec![expr, Symbol::Terminal(TokenType::Plus), expr]),
        (NonTerminal::Expr, vec![Symbol::Terminal(TokenType::Number)]),
    ]));
    assert_eq!(table.states.len(), 5);
    assert_eq!(table.action(0, TokenType::Number), Some(&Action::Shift(1)));
    assert_eq!(table.goto(0, NonTerminal::Expr), Some(2));
    assert_eq!(table.action(2, TokenType::Plus), Some(&Action::Shift(3)));
    assert_eq!(table.action(2, TokenType::Eof), Some(&Action::Accept));
    assert_eq!(table.goto(3, NonTerminal::Expr), Some(4));
    // Behind E + E the next + could be shifted or the sum reduced.
    assert_eq!(table.action(4, TokenType::Plus), Some(&Action::Reduce(1)));
    assert_eq!(table.action(4, TokenType::Eof), Some(&Action::Reduce(1)));
    assert_eq!(table.action_table.len(), 8);
    assert!(!table.cell_is_clear(4, TokenType::Plus));
    assert!(table.cell_is_clear(4, TokenType::Eof));
    assert!(!table.is_deterministic());
}

#[test]
fn an_empty_rule_can_take_the_place_of_the_accepting_entry() {
    // S' -> E, E -> E T, E -> number, T ->
    let expr = Symbol::NonTerminal(NonTerminal::Expr);
    let table = LrTable::new(grammar_of(vec![
        (NonTerminal::Start, vec![expr]),
        (NonTerminal::Expr, vec![expr, Symbol::NonTerminal(NonTerminal::Term)]),
        (NonTerminal::Expr, vec![Symbol::Terminal(TokenType::Number)]),
        (NonTerminal::Term, vec![]),
    ]));
    assert_eq!(table.states.len(), 4);
    assert_eq!(table.goto(0, NonTerminal::Expr), Some(2));
    assert!(table.accepts_in(2));
    assert_eq!(table.action(2, TokenType::Eof), Some(&Action::Reduce(3)));
    let accepts = table
        .action_table
        .values()
        .into_iter()
        .filter(|a| matches!(a, Action::Accept))
        .count();
    assert_eq!(accepts, 0);
    assert!(!table.cell_is_clear(2, TokenType::Eof));
    assert!(!table.is_deterministic());
}
