use calculator::grammar::{Grammar, NonTerminal, Symbol};
use calculator::item_set::LrItem;
use calculator::lr_table::{Action, LrTable};
use calculator::token::TokenType;

#[test]
fn items_are_shown_with_the_dot() {
    let table = LrTable::new(Grammar::new());
    let item = |production_id, dot_position, lookahead| LrItem {
        production_id,
        dot_position,
        lookahead,
    };
    assert_eq!(table.format_item(&item(0, 0, TokenType::Eof)), "S' -> • E, Eof");
    assert_eq!(table.format_item(&item(0, 1, TokenType::Eof)), "S' -> E •, Eof");
    assert_eq!(table.format_item(&item(1, 1, TokenType::Plus)), "E -> E • Plus T, Plus");
    assert_eq!(
        table.format_item(&item(7, 2, TokenType::Star)),
        "F -> LeftParen E • RightParen, Star"
    );
    assert_eq!(table.format_item(&item(9, 2, TokenType::Slash)), "F -> Minus F •, Slash");
}

#[test]
fn actions_and_rules_have_their_texts() {
    assert_eq!(Action::Shift(12).code(), "s12");
    assert_eq!(Action::Reduce(8).code(), "r8");
    assert_eq!(Action::Accept.code(), "acc");
    assert_eq!(LrTable::format_action(&Action::Shift(12)), "Shift(12)");
    assert_eq!(LrTable::format_action(&Action::Reduce(8)), "Reduce(8)");
    assert_eq!(LrTable::format_action(&Action::Accept), "Accept");
    assert_eq!(format!("{:?}", Action::Shift(12)), "Shift(12)");
    let grammar = Grammar::new();
    assert_eq!(grammar.productions[0].text(), "S' -> E");
    assert_eq!(grammar.productions[1].text(), "E -> E Plus T");
    assert_eq!(grammar.productions[7].text(), "F -> LeftParen E RightParen");
    assert_eq!(NonTerminal::Start.name(), "S'");
    assert_eq!(Symbol::NonTerminal(NonTerminal::Factor).name(), "F");
    assert_eq!(Symbol::Terminal(TokenType::Star).name(), "Star");
}

#[test]
fn the_listing_shows_each_state() {
    let table = LrTable::new(Grammar::new());
    let lines = table.listing();
    assert_eq!(lines[0], "");
    assert_eq!(lines[1], "State 0:");
    assert_eq!(lines[2], "  S' -> • E, Eof");
    assert_eq!(lines[3], "  E -> • E Plus T, Plus");
    // The first state has forty items, three actions and three gotos.
    assert_eq!(lines[42], "  Actions:");
    assert_eq!(lines[43], "    LeftParen -> Shift(3)");
    assert_eq!(lines[44], "    Minus -> Shift(2)");
    assert_eq!(lines[45], "    Number -> Shift(1)");
    assert_eq!(lines[46], "  Gotos:");
    assert_eq!(lines[47], "    E -> 4");
    assert_eq!(lines[48], "    F -> 6");
    assert_eq!(lines[49], "    T -> 5");
    assert_eq!(lines[50], "");
    assert_eq!(lines[51], "State 1:");
    assert_eq!(lines.iter().filter(|line| line.starts_with("State ")).count(), 34);
    assert_eq!(lines.iter().filter(|line| line.ends_with("-> Accept")).count(), 1);
    assert_eq!(table.state_listing(1).len(), 2 + 5 + 1 + 5);
}
