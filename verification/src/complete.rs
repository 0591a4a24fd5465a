//! Tables without conflicts, and what the shift-reduce machine does with
//! them: it accepts every sequence of tokens that spells an expression, and
//! gives that expression.

use crate::ast::{BinaryOp, ExprView, UnaryOp};
use crate::automaton::{
    acceptable, action_justified, advanced, after_dot, edge_justified, finished_item, has_edge,
    initial_item, kernel_of, lemma_closure_holds_kernel, lemma_closure_step, lemma_state_is_closure,
    lookaheads_of, predicts, reducible, retreated, target_of,
};
use crate::conflicts::{cell_clear, conflict_free};
use crate::error::ParseErrorView;
use crate::first_follow::lemma_first_of_terminal;
use crate::grammar::{calculator_rules, lemma_calculator_rules, NonTerminal, Symbol};
use crate::item_set::LrItem;
use crate::language::{additive, level, multiplicative, rule_value, spells, token_value};
use crate::lr_table::{Action, LrTable};
use crate::parser::{machine_reaches, machine_result, machine_start, machine_step, Machine, Move};
use crate::theorems::{lemma_accept_entry, lemma_calculator_augmented};
use crate::token::{TokenType, TokenView};
use vstd::prelude::*;

verus! {

/// In a table without conflicts, a terminal other than the end of input
/// that can be shifted is shifted.
pub proof fn lemma_shift_action(table: LrTable, s: int, t: TokenType) -> (next: usize)
    requires
        table.wf(),
        conflict_free(table.rules(), table.state_sets()),
        0 <= s < table.states.len(),
        has_edge(table.rules(), table.state_sets()[s], Symbol::Terminal(t)),
        t != TokenType::Eof,
    ensures
        table.action_entry(s, t) == Some(Action::Shift(next)),
        next < table.states.len(),
        table.state_sets()[next as int] == target_of(
            table.rules(),
            table.state_sets()[s],
            Symbol::Terminal(t),
        ),
{
    let rules = table.rules();
    let sets = table.state_sets();
    let entry = table.action_entry(s, t);
    assert(action_justified(rules, sets, s, t, entry));
    assert(cell_clear(rules, sets[s], t));
    match entry {
        Some(Action::Shift(next)) => next,
        Some(Action::Reduce(r)) => {
            assert(reducible(rules, sets[s], r as int, t));
            0
        },
        _ => 0,
    }
}

/// In a table without conflicts, a rule that is read to its end is reduced
/// at its lookahead.
pub proof fn lemma_reduce_action(table: LrTable, s: int, t: TokenType, p: int)
    requires
        table.wf(),
        conflict_free(table.rules(), table.state_sets()),
        0 <= s < table.states.len(),
        reducible(table.rules(), table.state_sets()[s], p, t),
    ensures
        0 < p < table.rules().len(),
        table.action_entry(s, t) == Some(Action::Reduce(p as usize)),
{
    let rules = table.rules();
    let sets = table.state_sets();
    let entry = table.action_entry(s, t);
    assert(action_justified(rules, sets, s, t, entry));
    assert(cell_clear(rules, sets[s], t));
    assert(rules.len() == table.grammar.productions.len());
    match entry {
        Some(Action::Reduce(r)) => {
            assert(reducible(rules, sets[s], r as int, t));
        },
        _ => {},
    }
}

/// A state with an item that has a non-terminal after its dot has a goto on
/// the non-terminal, to a state that holds the item with the dot moved on.
pub proof fn lemma_goto_action(table: LrTable, s: int, item: LrItem,
    x: NonTerminal) -> (next: usize)
    requires
        table.wf(),
        0 <= s < table.states.len(),
        table.state_sets()[s].contains(item),
        after_dot(table.rules(), item) == Some(Symbol::NonTerminal(x)),
    ensures
        table.goto_entry(s, x) == Some(next),
        next < table.states.len(),
        table.state_sets()[next as int] == target_of(
            table.rules(),
            table.state_sets()[s],
            Symbol::NonTerminal(x),
        ),
        table.state_sets()[next as int].contains(advanced(item)),
{
    let rules = table.rules();
    let sets = table.state_sets();
    lemma_edge_item(table, item, Symbol::NonTerminal(x), s);
    let entry = table.goto_entry(s, x);
    assert(edge_justified(rules, sets, s, Symbol::NonTerminal(x), entry));
    entry->Some_0
}

/// An item with a symbol after its dot gives its state an edge on the
/// symbol, and the state that the edge leads to holds the item with the dot
/// moved on.
pub proof fn lemma_edge_item(table: LrTable, item: LrItem, x: Symbol, s: int)
    requires
        table.wf(),
        0 <= s < table.states.len(),
        table.state_sets()[s].contains(item),
        after_dot(table.rules(), item) == Some(x),
    ensures
        has_edge(table.rules(), table.state_sets()[s], x),
        target_of(table.rules(), table.state_sets()[s], x).contains(advanced(item)),
{
    let rules = table.rules();
    let sets = table.state_sets();
    assert(rules[item.production_id as int].rhs.len()
        == table.grammar.productions[item.production_id as int].rhs.len());
    assert(retreated(advanced(item)) == item);
    assert(kernel_of(rules, sets[s], x).contains(advanced(item)));
    lemma_closure_holds_kernel(rules, kernel_of(rules, sets[s], x));
}

/// A state holds what its items bring in.
pub proof fn lemma_state_closed(table: LrTable, s: int, a: LrItem, b: LrItem)
    requires
        table.wf(),
        0 <= s < table.states.len(),
        table.state_sets()[s].contains(a),
        predicts(table.rules(), a, b),
    ensures
        table.state_sets()[s].contains(b),
{
    let kernel = lemma_state_is_closure(table.rules(), table.state_sets(), s);
    lemma_closure_step(table.rules(), kernel, a, b);
}

// ---------------------------------------------------------------------------
// The machine on a table without conflicts
// ---------------------------------------------------------------------------
/// The table is the table of the calculator's grammar, and it has no
/// conflict.
pub open spec fn ready(table: LrTable) -> bool {
    &&& table.wf()
    &&& table.rules() == calculator_rules()
    &&& conflict_free(table.rules(), table.state_sets())
}

/// The machine stands at `m` after `k` steps, with one value for each state
/// above the first, in a state of the table.
pub open spec fn stacked(table: LrTable, input: Seq<TokenView>, m: Machine, k: nat) -> bool {
    &&& machine_reaches(table, input, m, k)
    &&& m.states.len() == m.values.len() + 1
    &&& m.states.last() < table.states.len()
    &&& 0 <= m.pos <= input.len()
}

/// The machine with one more entry, at another token.
pub open spec fn pushed(m: Machine, state: usize, value: Option<ExprView>, pos: int) -> Machine {
    Machine { states: m.states.push(state), values: m.values.push(value), pos }
}

/// The machine shifts the token that an item of the state on top has after
/// its dot.
pub proof fn lemma_machine_shift(
    table: LrTable,
    input: Seq<TokenView>,
    m: Machine,
    k: nat,
    item: LrItem,
) -> (next: usize)
    requires
        ready(table),
        stacked(table, input, m, k),
        m.pos < input.len(),
        table.state_sets()[m.states.last() as int].contains(item),
        after_dot(table.rules(), item) == Some(Symbol::Terminal(input[m.pos].token_type)),
        input[m.pos].token_type != TokenType::Eof,
    ensures
        stacked(table, input, pushed(m, next, token_value(input[m.pos]), m.pos + 1),
            (k + 1) as nat),
        table.state_sets()[next as int].contains(advanced(item)),
{
    let s = m.states.last() as int;
    let t = input[m.pos].token_type;
    lemma_edge_item(table, item, Symbol::Terminal(t), s);
    let next = lemma_shift_action(table, s, t);
    let after = pushed(m, next, token_value(input[m.pos]), m.pos + 1);
    assert(machine_step(table, input, m) == Move::Next(after));
    assert(machine_reaches(table, input, after, (k + 1) as nat));
    next
}

/// The machine reduces by a rule that the state on top holds read to its
/// end with the next token as lookahead: it takes the entries of the rule
/// off the stack of the machine `below`, and pushes the goto of the state
/// then on top.
pub proof fn lemma_machine_reduce(
    table: LrTable,
    input: Seq<TokenView>,
    below: Machine,
    m: Machine,
    k: nat,
    p: int,
    item: LrItem,
) -> (next: usize)
    requires
        ready(table),
        stacked(table, input, m, k),
        m.pos < input.len(),
        0 < p < 10,
        below.states.len() == below.values.len() + 1,
        below.states.last() < table.states.len(),
        m.states.len() == below.states.len() + calculator_rules()[p].rhs.len(),
        m.states.take(below.states.len() as int) == below.states,
        m.values.take(below.values.len() as int) == below.values,
        reducible(
            table.rules(),
            table.state_sets()[m.states.last() as int],
            p,
            input[m.pos].token_type,
        ),
        table.state_sets()[below.states.last() as int].contains(item),
        after_dot(table.rules(), item) == Some(Symbol::NonTerminal(calculator_rules()[p].lhs)),
    ensures
        stacked(
            table,
            input,
            pushed(
                below,
                next,
                rule_value(p, m.values.subrange(below.values.len() as int, m.values.len() as int)),
                m.pos,
            ),
            (k + 1) as nat,
        ),
        table.state_sets()[next as int].contains(advanced(item)),
{
    let rules = table.rules();
    let s = m.states.last() as int;
    let t = input[m.pos].token_type;
    lemma_reduce_action(table, s, t, p);
    let base = below.values.len() as int;
    assert(m.states[base] == m.states.take(below.states.len() as int)[base]);
    let next = lemma_goto_action(table, below.states.last() as int, item, rules[p].lhs);
    let after = pushed(
        below,
        next,
        rule_value(p, m.values.subrange(base, m.values.len() as int)),
        m.pos,
    );
    assert(m.states.take(base + 1).push(next) =~= below.states.push(next));
    assert(m.values.take(base) =~= below.values);
    assert(machine_step(table, input, m) == Move::Next(after));
    assert(machine_reaches(table, input, after, (k + 1) as nat));
    next
}

/// What is to be shown of a machine that stands before tokens which spell
/// the non-terminal that an item of its state on top has after the dot,
/// where the token behind them is a lookahead that the item gives.
pub struct Task {
    pub table: LrTable,
    pub input: Seq<TokenView>,
    pub m: Machine,
    pub k: nat,
    pub x: NonTerminal,
    pub e: ExprView,
    pub to: int,
    pub item: LrItem,
}

/// The task is well posed.
pub open spec fn task_ok(t: Task) -> bool {
    &&& ready(t.table)
    &&& stacked(t.table, t.input, t.m, t.k)
    &&& t.m.pos <= t.to < t.input.len()
    &&& spells(t.x, t.e, t.input.subrange(t.m.pos, t.to))
    &&& t.table.state_sets()[t.m.states.last() as int].contains(t.item)
    &&& after_dot(t.table.rules(), t.item) == Some(Symbol::NonTerminal(t.x))
    &&& lookaheads_of(t.table.rules(), t.item).contains(t.input[t.to].token_type)
}

/// The machine comes, after `k` steps in all, to stand behind the tokens
/// with the state of the goto and the expression on its stack.
pub open spec fn task_done(t: Task, k: nat, next: usize) -> bool {
    &&& stacked(t.table, t.input, pushed(t.m, next, Some(t.e), t.to), k)
    &&& t.table.state_sets()[next as int].contains(advanced(t.item))
}

/// The item of a rule of the task's non-terminal with the dot in front and
/// the token behind the task's tokens as lookahead: the state on top holds
/// it.
pub proof fn lemma_task_rule(t: Task, p: int) -> (item: LrItem)
    requires
        task_ok(t),
        0 < p < 10,
        calculator_rules()[p].lhs == t.x,
    ensures
        item == (LrItem {
            production_id: p as usize,
            dot_position: 0,
            lookahead: t.input[t.to].token_type,
        }),
        t.table.state_sets()[t.m.states.last() as int].contains(item),
{
    lemma_calculator_rules();
    let item = LrItem {
        production_id: p as usize,
        dot_position: 0,
        lookahead: t.input[t.to].token_type,
    };
    lemma_state_closed(t.table, t.m.states.last() as int, t.item, item);
    item
}

/// The task with another non-terminal to read, from another place of the
/// machine.
pub open spec fn subtask(t: Task, m: Machine, k: nat, x: NonTerminal, e: ExprView, to: int,
    item: LrItem) -> Task {
    Task { table: t.table, input: t.input, m, k, x, e, to, item }
}

/// The machine reads the tokens of the task: it comes to stand behind them
/// with the expression that they spell on its stack.
pub proof fn lemma_derive(t: Task) -> (r: (nat, usize))
    requires
        task_ok(t),
    ensures
        task_done(t, r.0, r.1),
    decreases t.to - t.m.pos, level(t.x), 1nat,
{
    let tokens = t.input.subrange(t.m.pos, t.to);
    match t.x {
        NonTerminal::Start => {
            // No rule has the start symbol on its right-hand side.
            lemma_calculator_rules();
            let p = t.item.production_id as int;
            let d = t.item.dot_position as int;
            assert(calculator_rules()[p].rhs[d] == Symbol::NonTerminal(NonTerminal::Start));
            if p == 0 {
            } else if p == 1 {
            } else if p == 2 {
            } else if p == 3 {
            } else if p == 4 {
            } else if p == 5 {
            } else if p == 6 {
            } else if p == 7 {
            } else if p == 8 {
            } else {
            }
            (0, 0)
        },
        NonTerminal::Expr => {
            if spells(NonTerminal::Term, t.e, tokens) {
                lemma_unit(t, 3, NonTerminal::Term)
            } else {
                let k = choose|k: int|
                    0 < k < tokens.len() - 1 && additive((#[trigger] tokens[k]).token_type) is Some
                        && t.e is Binary && t.e->Binary_op == additive(tokens[k].token_type)->Some_0
                        && spells(NonTerminal::Expr, *t.e->left, tokens.take(k)) && spells(
                        NonTerminal::Term,
                        *t.e->right,
                        tokens.skip(k + 1),
                    );
                if tokens[k].token_type == TokenType::Plus {
                    lemma_binary(t, 1, k, NonTerminal::Term, TokenType::Plus)
                } else {
                    lemma_binary(t, 2, k, NonTerminal::Term, TokenType::Minus)
                }
            }
        },
        NonTerminal::Term => {
            if spells(NonTerminal::Factor, t.e, tokens) {
                lemma_unit(t, 6, NonTerminal::Factor)
            } else {
                let k = choose|k: int|
                    0 < k < tokens.len() - 1
                        && multiplicative((#[trigger] tokens[k]).token_type) is Some
                        && t.e is Binary && t.e->Binary_op == multiplicative(
                        tokens[k].token_type,
                    )->Some_0 && spells(NonTerminal::Term, *t.e->left, tokens.take(k)) && spells(
                        NonTerminal::Factor,
                        *t.e->right,
                        tokens.skip(k + 1),
                    );
                if tokens[k].token_type == TokenType::Star {
                    lemma_binary(t, 4, k, NonTerminal::Factor, TokenType::Star)
                } else {
                    lemma_binary(t, 5, k, NonTerminal::Factor, TokenType::Slash)
                }
            }
        },
        NonTerminal::Factor => {
            if tokens.len() == 1 && tokens[0].token_type == TokenType::Number && t.e
                == ExprView::Number(tokens[0].lexeme) {
                lemma_number(t)
            } else if tokens.len() >= 2 && tokens[0].token_type == TokenType::Minus && t.e is Unary
                && t.e->Unary_op == UnaryOp::Negate && spells(
                NonTerminal::Factor,
                *t.e->operand,
                tokens.skip(1),
            ) {
                lemma_negate(t)
            } else {
                lemma_parens(t)
            }
        },
    }
}

/// The rules `E -> T` and `T -> F`.
pub proof fn lemma_unit(t: Task, p: int, inner: NonTerminal) -> (r: (nat, usize))
    requires
        task_ok(t),
        (p == 3 && t.x == NonTerminal::Expr && inner == NonTerminal::Term) || (p == 6 && t.x
            == NonTerminal::Term && inner == NonTerminal::Factor),
        spells(inner, t.e, t.input.subrange(t.m.pos, t.to)),
    ensures
        task_done(t, r.0, r.1),
    decreases t.to - t.m.pos, level(t.x), 0nat,
{
    lemma_calculator_rules();
    let rules = calculator_rules();
    let a = t.input[t.to].token_type;
    let first = lemma_task_rule(t, p);
    let sub = subtask(t, t.m, t.k, inner, t.e, t.to, first);
    assert(after_dot(rules, first) == Some(Symbol::NonTerminal(inner)));
    assert(lookaheads_of(rules, first) == set![a]);
    let (k1, s1) = lemma_derive(sub);
    let m1 = pushed(t.m, s1, Some(t.e), t.to);
    assert(advanced(first) == finished_item(rules, p, a.ordinal())) by {
        assert(TokenType::at_ordinal(a.ordinal()) == a);
    }
    assert(reducible(rules, t.table.state_sets()[s1 as int], p, a)) by {
        assert(TokenType::at_ordinal(a.ordinal()) == a);
    }
    assert(m1.states.take(t.m.states.len() as int) =~= t.m.states);
    assert(m1.values.take(t.m.values.len() as int) =~= t.m.values);
    let next = lemma_machine_reduce(t.table, t.input, t.m, m1, k1, p, t.item);
    let kids = m1.values.subrange(t.m.values.len() as int, m1.values.len() as int);
    assert(kids =~= seq![Some(t.e)]);
    assert(rule_value(p, kids) == Some(t.e));
    ((k1 + 1) as nat, next)
}

/// The rule `F -> number`.
pub proof fn lemma_number(t: Task) -> (r: (nat, usize))
    requires
        task_ok(t),
        t.x == NonTerminal::Factor,
        t.to == t.m.pos + 1,
        t.input[t.m.pos].token_type == TokenType::Number,
        t.e == ExprView::Number(t.input[t.m.pos].lexeme),
    ensures
        task_done(t, r.0, r.1),
    decreases t.to - t.m.pos, level(t.x), 0nat,
{
    lemma_calculator_rules();
    let rules = calculator_rules();
    let a = t.input[t.to].token_type;
    let first = lemma_task_rule(t, 8);
    assert(after_dot(rules, first) == Some(Symbol::Terminal(TokenType::Number)));
    let s1 = lemma_machine_shift(t.table, t.input, t.m, t.k, first);
    let m1 = pushed(t.m, s1, token_value(t.input[t.m.pos]), t.m.pos + 1);
    assert(reducible(rules, t.table.state_sets()[s1 as int], 8, a));
    assert(m1.states.take(t.m.states.len() as int) =~= t.m.states);
    assert(m1.values.take(t.m.values.len() as int) =~= t.m.values);
    let next = lemma_machine_reduce(t.table, t.input, t.m, m1, (t.k + 1) as nat, 8, t.item);
    let kids = m1.values.subrange(t.m.values.len() as int, m1.values.len() as int);
    assert(kids =~= seq![Some(t.e)]);
    assert(rule_value(8, kids) == Some(t.e));
    ((t.k + 2) as nat, next)
}

/// The rule `F -> - F`.
pub proof fn lemma_negate(t: Task) -> (r: (nat, usize))
    requires
        task_ok(t),
        t.x == NonTerminal::Factor,
        t.to >= t.m.pos + 2,
        t.input[t.m.pos].token_type == TokenType::Minus,
        t.e is Unary,
        t.e->Unary_op == UnaryOp::Negate,
        spells(NonTerminal::Factor, *t.e->operand, t.input.subrange(t.m.pos, t.to).skip(1)),
    ensures
        task_done(t, r.0, r.1),
    decreases t.to - t.m.pos, level(t.x), 0nat,
{
    lemma_calculator_rules();
    let rules = calculator_rules();
    let a = t.input[t.to].token_type;
    let first = lemma_task_rule(t, 9);
    assert(after_dot(rules, first) == Some(Symbol::Terminal(TokenType::Minus)));
    let s1 = lemma_machine_shift(t.table, t.input, t.m, t.k, first);
    let m1 = pushed(t.m, s1, token_value(t.input[t.m.pos]), t.m.pos + 1);
    let second = advanced(first);
    assert(after_dot(rules, second) == Some(Symbol::NonTerminal(NonTerminal::Factor)));
    assert(lookaheads_of(rules, second) == set![a]);
    assert(t.input.subrange(t.m.pos, t.to).skip(1) =~= t.input.subrange(t.m.pos + 1, t.to));
    let sub = subtask(t, m1, (t.k + 1) as nat, NonTerminal::Factor, *t.e->operand, t.to, second);
    let (k2, s2) = lemma_derive(sub);
    let m2 = pushed(m1, s2, Some(*t.e->operand), t.to);
    assert(reducible(rules, t.table.state_sets()[s2 as int], 9, a));
    assert(m2.states.take(t.m.states.len() as int) =~= t.m.states);
    assert(m2.values.take(t.m.values.len() as int) =~= t.m.values);
    let next = lemma_machine_reduce(t.table, t.input, t.m, m2, k2, 9, t.item);
    let kids = m2.values.subrange(t.m.values.len() as int, m2.values.len() as int);
    assert(kids =~= seq![None, Some(*t.e->operand)]);
    assert(rule_value(9, kids) == Some(t.e));
    ((k2 + 1) as nat, next)
}

/// The rule `F -> ( E )`.
pub proof fn lemma_parens(t: Task) -> (r: (nat, usize))
    requires
        task_ok(t),
        t.x == NonTerminal::Factor,
        t.to >= t.m.pos + 3,
        t.input[t.m.pos].token_type == TokenType::LeftParen,
        t.input[t.to - 1].token_type == TokenType::RightParen,
        spells(
            NonTerminal::Expr,
            t.e,
            t.input.subrange(t.m.pos, t.to).subrange(1, t.to - t.m.pos - 1),
        ),
    ensures
        task_done(t, r.0, r.1),
    decreases t.to - t.m.pos, level(t.x), 0nat,
{
    lemma_calculator_rules();
    let rules = calculator_rules();
    let a = t.input[t.to].token_type;
    let first = lemma_task_rule(t, 7);
    assert(after_dot(rules, first) == Some(Symbol::Terminal(TokenType::LeftParen)));
    let s1 = lemma_machine_shift(t.table, t.input, t.m, t.k, first);
    let m1 = pushed(t.m, s1, token_value(t.input[t.m.pos]), t.m.pos + 1);
    let second = advanced(first);
    assert(after_dot(rules, second) == Some(Symbol::NonTerminal(NonTerminal::Expr)));
    lemma_first_of_terminal(rules, TokenType::RightParen);
    assert(lookaheads_of(rules, second) == set![TokenType::RightParen]);
    assert(t.input.subrange(t.m.pos, t.to).subrange(1, t.to - t.m.pos - 1) =~= t.input.subrange(
        t.m.pos + 1,
        t.to - 1,
    ));
    let sub = subtask(t, m1, (t.k + 1) as nat, NonTerminal::Expr, t.e, t.to - 1, second);
    let (k2, s2) = lemma_derive(sub);
    let m2 = pushed(m1, s2, Some(t.e), t.to - 1);
    let third = advanced(second);
    assert(after_dot(rules, third) == Some(Symbol::Terminal(TokenType::RightParen)));
    let s3 = lemma_machine_shift(t.table, t.input, m2, k2, third);
    let m3 = pushed(m2, s3, token_value(t.input[t.to - 1]), t.to);
    assert(reducible(rules, t.table.state_sets()[s3 as int], 7, a));
    assert(m3.states.take(t.m.states.len() as int) =~= t.m.states);
    assert(m3.values.take(t.m.values.len() as int) =~= t.m.values);
    let next = lemma_machine_reduce(t.table, t.input, t.m, m3, (k2 + 1) as nat, 7, t.item);
    let kids = m3.values.subrange(t.m.values.len() as int, m3.values.len() as int);
    assert(kids =~= seq![None, Some(t.e), None]);
    assert(rule_value(7, kids) == Some(t.e));
    ((k2 + 2) as nat, next)
}

/// The shape of the rules `E -> E + T`, `E -> E - T`, `T -> T * F` and
/// `T -> T / F`.
pub open spec fn binary_rule(p: int, x: NonTerminal, right: NonTerminal, sign: TokenType,
    op: BinaryOp) -> bool {
    ||| (p == 1 && x == NonTerminal::Expr && right == NonTerminal::Term && sign == TokenType::Plus
        && op == BinaryOp::Add)
    ||| (p == 2 && x == NonTerminal::Expr && right == NonTerminal::Term && sign
        == TokenType::Minus && op == BinaryOp::Subtract)
    ||| (p == 4 && x == NonTerminal::Term && right == NonTerminal::Factor && sign
        == TokenType::Star && op == BinaryOp::Multiply)
    ||| (p == 5 && x == NonTerminal::Term && right == NonTerminal::Factor && sign
        == TokenType::Slash && op == BinaryOp::Divide)
}

/// What such a rule is, and the value that it makes.
pub proof fn lemma_binary_rule(p: int, x: NonTerminal, right: NonTerminal, sign: TokenType,
    op: BinaryOp)
    requires
        binary_rule(p, x, right, sign, op),
    ensures
        0 < p < 10,
        calculator_rules().len() == 10,
        calculator_rules()[p].lhs == x,
        calculator_rules()[p].rhs == seq![
            Symbol::NonTerminal(x),
            Symbol::Terminal(sign),
            Symbol::NonTerminal(right),
        ],
        forall|kids: Seq<Option<ExprView>>|
            kids.len() == 3 && kids[0] is Some && kids[2] is Some ==> #[trigger] rule_value(p, kids)
                == Some(
                ExprView::Binary {
                    left: Box::new(kids[0]->Some_0),
                    op,
                    right: Box::new(kids[2]->Some_0),
                },
            ),
{
    lemma_calculator_rules();
}

/// The rules `E -> E + T`, `E -> E - T`, `T -> T * F` and `T -> T / F`.
pub proof fn lemma_binary(t: Task, p: int, k: int, right: NonTerminal, sign: TokenType) -> (r: (
    nat,
    usize,
))
    requires
        task_ok(t),
        binary_rule(p, t.x, right, sign, t.e->Binary_op),
        0 < k < t.to - t.m.pos - 1,
        t.input[t.m.pos + k].token_type == sign,
        t.e is Binary,
        spells(t.x, *t.e->left, t.input.subrange(t.m.pos, t.to).take(k)),
        spells(right, *t.e->right, t.input.subrange(t.m.pos, t.to).skip(k + 1)),
    ensures
        task_done(t, r.0, r.1),
    decreases t.to - t.m.pos, level(t.x), 0nat,
{
    lemma_binary_rule(p, t.x, right, sign, t.e->Binary_op);
    let rules = calculator_rules();
    let a = t.input[t.to].token_type;
    let mid = t.m.pos + k;
    let first = lemma_task_rule(t, p);
    assert(after_dot(rules, first) == Some(Symbol::NonTerminal(t.x)));
    lemma_first_of_terminal(rules, sign);
    assert(lookaheads_of(rules, first) == set![sign]);
    assert(t.input.subrange(t.m.pos, t.to).take(k) =~= t.input.subrange(t.m.pos, mid));
    let sub1 = subtask(t, t.m, t.k, t.x, *t.e->left, mid, first);
    let (k1, s1) = lemma_derive(sub1);
    let m1 = pushed(t.m, s1, Some(*t.e->left), mid);
    let second = advanced(first);
    assert(after_dot(rules, second) == Some(Symbol::Terminal(sign)));
    let s2 = lemma_machine_shift(t.table, t.input, m1, k1, second);
    let m2 = pushed(m1, s2, token_value(t.input[mid]), mid + 1);
    let third = advanced(second);
    assert(after_dot(rules, third) == Some(Symbol::NonTerminal(right)));
    assert(lookaheads_of(rules, third) == set![a]);
    assert(t.input.subrange(t.m.pos, t.to).skip(k + 1) =~= t.input.subrange(mid + 1, t.to));
    let sub2 = subtask(t, m2, (k1 + 1) as nat, right, *t.e->right, t.to, third);
    let (k3, s3) = lemma_derive(sub2);
    let m3 = pushed(m2, s3, Some(*t.e->right), t.to);
    assert(reducible(rules, t.table.state_sets()[s3 as int], p, a));
    assert(m3.states.take(t.m.states.len() as int) =~= t.m.states);
    assert(m3.values.take(t.m.values.len() as int) =~= t.m.values);
    let next = lemma_machine_reduce(t.table, t.input, t.m, m3, k3, p, t.item);
    let kids = m3.values.subrange(t.m.values.len() as int, m3.values.len() as int);
    assert(kids =~= seq![Some(*t.e->left), None, Some(*t.e->right)]);
    assert(rule_value(p, kids) == Some(t.e));
    ((k3 + 1) as nat, next)
}

/// The machine accepts what spells an expression. Where the tokens before
/// an end token spell an expression, the run of the machine over a table
/// without conflicts ends with that expression.
pub proof fn lemma_complete(table: LrTable, input: Seq<TokenView>, n: int, e: ExprView)
    requires
        ready(table),
        0 <= n < input.len(),
        input[n].token_type == TokenType::Eof,
        spells(NonTerminal::Expr, e, input.take(n)),
    ensures
        machine_result(table, input, Ok::<ExprView, ParseErrorView>(e)),
{
    lemma_calculator_rules();
    lemma_calculator_augmented();
    let rules = table.rules();
    let sets = table.state_sets();
    let start = machine_start();
    lemma_closure_holds_kernel(rules, set![initial_item()]);
    assert(sets[0].contains(initial_item()));
    assert(input.take(n) =~= input.subrange(0, n));
    assert(lookaheads_of(rules, initial_item()) == set![TokenType::Eof]);
    let task = Task {
        table,
        input,
        m: start,
        k: 0,
        x: NonTerminal::Expr,
        e,
        to: n,
        item: initial_item(),
    };
    let (k, accepting) = lemma_derive(task);
    let last = pushed(start, accepting, Some(e), n);
    assert(acceptable(rules, sets[accepting as int], TokenType::Eof));
    lemma_accept_entry(&table, accepting as int, TokenType::Eof);
    assert(machine_step(table, input, last) == Move::Done(Ok::<ExprView, ParseErrorView>(e)));
    assert(machine_reaches(table, input, last, k));
}

} // verus!
