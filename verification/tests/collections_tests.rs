use calculator::grammar::Grammar;
use calculator::item_set::{ItemSet, LrItem};
use calculator::table::Table;
use calculator::token::TokenType;

fn item(production_id: usize, dot_position: usize, lookahead: TokenType) -> LrItem {
    LrItem { production_id, dot_position, lookahead }
}

#[test]
fn an_item_set_holds_each_item_once() {
    let grammar = Grammar::new();
    let mut set = ItemSet::new(&grammar.productions);
    assert!(set.is_empty());
    assert_eq!(set.len(), 0);
    assert!(set.insert(item(1, 3, TokenType::Plus)));
    assert!(!set.insert(item(1, 3, TokenType::Plus)));
    assert!(set.insert(item(1, 3, TokenType::Minus)));
    assert!(set.insert(item(9, 0, TokenType::Eof)));
    assert_eq!(set.len(), 3);
    assert!(set.contains(&item(1, 3, TokenType::Plus)));
    assert!(set.contains(&item(9, 0, TokenType::Eof)));
    assert!(!set.contains(&item(1, 2, TokenType::Plus)));
    assert!(!set.contains(&item(9, 0, TokenType::Plus)));
    assert!(!set.is_empty());
}

#[test]
fn an_item_set_admits_the_items_of_its_rules() {
    let grammar = Grammar::new();
    let set = ItemSet::new(&grammar.productions);
    assert!(set.accepts(&item(0, 0, TokenType::Eof)));
    assert!(set.accepts(&item(0, 1, TokenType::Eof)));
    assert!(!set.accepts(&item(0, 2, TokenType::Eof)));
    assert!(set.accepts(&item(7, 3, TokenType::Star)));
    assert!(!set.accepts(&item(7, 4, TokenType::Star)));
    assert!(!set.accepts(&item(10, 0, TokenType::Star)));
    assert!(!set.contains(&item(10, 0, TokenType::Star)));
}

#[test]
fn item_sets_are_compared_by_their_items() {
    let grammar = Grammar::new();
    let mut a = ItemSet::new(&grammar.productions);
    let mut b = ItemSet::new(&grammar.productions);
    assert!(a.same(&b));
    a.insert(item(4, 1, TokenType::Star));
    a.insert(item(2, 0, TokenType::Eof));
    assert!(!a.same(&b));
    b.insert(item(2, 0, TokenType::Eof));
    b.insert(item(4, 1, TokenType::Star));
    assert!(a.same(&b));
    assert_eq!(a, b);
    let copy = a.duplicate();
    assert!(copy.same(&a));
    assert_eq!(copy.len(), 2);
}

#[test]
fn a_table_holds_what_was_put_last() {
    let mut table: Table<usize> = Table::new(3);
    assert!(table.is_empty());
    assert_eq!(table.get(0, 0), None);
    table.add_row();
    table.add_row();
    assert!(table.is_empty());
    table.insert(1, 2, 7);
    table.insert(0, 1, 5);
    table.insert(1, 2, 9);
    assert_eq!(table.get(1, 2), Some(&9));
    assert_eq!(table.get(0, 1), Some(&5));
    assert_eq!(table.get(0, 0), None);
    assert_eq!(table.get(1, 3), None);
    assert_eq!(table.get(2, 0), None);
    assert_eq!(table.len(), 2);
    assert!(!table.is_empty());
    assert_eq!(table.values(), vec![5, 9]);
}
