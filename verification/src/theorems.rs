//! What holds of every LR(1) table that this library builds.

use crate::ast::ExprView;
use crate::automaton::{
    acceptable, action_justified, after_dot, canonical, closure_of, discovered, discovered_before,
    discovers, has_edge, initial_item, kernel_of, lemma_action_justified_unique,
    lemma_canonical_unique, lemma_closure_dot, lemma_closure_holds_kernel, lemma_closure_origin,
    lemma_discovers_unique, lemma_edge_justified_unique, predicts, reducible, retreated, target_of,
};
use crate::first_follow::{first_of, lemma_first_of_rule, lemma_first_of_terminal};
use crate::grammar::{calculator_rules, lemma_calculator_rules, NonTerminal, Rule, Symbol};
use crate::item_set::LrItem;
use crate::language::{additive, level, multiplicative, spells};
use crate::lr_table::{kernels_of, Action, LrState, LrTable};
use crate::token::{TokenType, TokenView};
use vstd::prelude::*;

verus! {

/// A state as a mathematical value.
pub struct LrStateView {
    pub id: usize,
    pub items: Set<LrItem>,
    pub kernel_items: Set<LrItem>,
}

impl View for LrState {
    type V = LrStateView;

    open spec fn view(&self) -> LrStateView {
        LrStateView { id: self.id, items: self.items@, kernel_items: self.kernel_items@ }
    }
}

/// A table as a mathematical value: its states, and the rows of its action
/// and goto tables.
pub struct LrTableView {
    pub states: Seq<LrStateView>,
    pub actions: Seq<Seq<Option<Action>>>,
    pub gotos: Seq<Seq<Option<usize>>>,
}

impl View for LrTable {
    type V = LrTableView;

    open spec fn view(&self) -> LrTableView {
        LrTableView {
            states: Seq::new(self.states.len() as nat, |k: int| self.states[k]@),
            actions: self.action_table@,
            gotos: self.goto_table@,
        }
    }
}

/// Construction is deterministic: two tables built for the same rules have
/// the same states with the same ids, and the same action and goto tables.
pub proof fn lemma_construction_deterministic(a: &LrTable, b: &LrTable)
    requires
        a.wf(),
        b.wf(),
        a.rules() == b.rules(),
    ensures
        a@ == b@,
{
    let rules = a.rules();
    let sets = a.state_sets();
    lemma_canonical_unique(rules, a.state_sets(), b.state_sets());
    assert(a.states.len() == b.states.len());
    assert forall|k: int| 0 <= k < a.states.len() implies a.states[k]@ == b.states[k]@ by {
        assert(a.state_sets()[k] == b.state_sets()[k]);
        if k >= 1 {
            let n = a.states.len() as int;
            assert(discovered_before(rules, sets, kernels_of(a.states@), k, n, 0));
            assert(discovered_before(rules, sets, kernels_of(b.states@), k, n, 0));
            let (s1, y1) = choose|s: int, y: int|
                #![trigger discovers(rules, sets, s, y, k)]
                discovers(rules, sets, s, y, k) && crate::automaton::edge_before(s, y, n, 0)
                    && kernels_of(a.states@)[k] == kernel_of(rules, sets[s], Symbol::at_ordinal(y));
            let (s2, y2) = choose|s: int, y: int|
                #![trigger discovers(rules, sets, s, y, k)]
                discovers(rules, sets, s, y, k) && crate::automaton::edge_before(s, y, n, 0)
                    && kernels_of(b.states@)[k] == kernel_of(rules, sets[s], Symbol::at_ordinal(y));
            lemma_discovers_unique(rules, sets, s1, y1, s2, y2, k);
        }
    }
    assert(a@.states =~= b@.states);
    assert forall|s: int| 0 <= s < a.states.len() implies
        a.action_table@[s] == b.action_table@[s] by {
        assert forall|c: int| 0 <= c < 8 implies a.action_table@[s][c] == b.action_table@[s][c] by {
            let t = TokenType::at_ordinal(c);
            assert(t.ordinal() == c);
            assert(a.action_table@[s][c] == a.action_entry(s, t));
            assert(b.action_table@[s][c] == b.action_entry(s, t));
            lemma_action_justified_unique(rules, sets, s, t, a.action_entry(s, t),
                b.action_entry(s, t));
        }
        assert(a.action_table@[s] =~= b.action_table@[s]);
    }
    assert(a.action_table@ =~= b.action_table@);
    assert forall|s: int| 0 <= s < a.states.len() implies a.goto_table@[s] == b.goto_table@[s] by {
        assert forall|c: int| 0 <= c < 4 implies a.goto_table@[s][c] == b.goto_table@[s][c] by {
            let n = NonTerminal::at_ordinal(c);
            assert(n.ordinal() == c);
            assert(a.goto_table@[s][c] == a.goto_entry(s, n));
            assert(b.goto_table@[s][c] == b.goto_entry(s, n));
            lemma_edge_justified_unique(
                rules,
                sets,
                s,
                Symbol::NonTerminal(n),
                a.goto_entry(s, n),
                b.goto_entry(s, n),
            );
        }
        assert(a.goto_table@[s] =~= b.goto_table@[s]);
    }
    assert(a.goto_table@ =~= b.goto_table@);
}

/// Construction is idempotent: two tables built for the same rules have the
/// same number of states and the same number of entries in the action table.
pub proof fn lemma_construction_idempotent(a: &LrTable, b: &LrTable)
    requires
        a.wf(),
        b.wf(),
        a.rules() == b.rules(),
    ensures
        a.states.len() == b.states.len(),
        a.action_table.count() == b.action_table.count(),
        a.goto_table.count() == b.goto_table.count(),
{
    lemma_construction_deterministic(a, b);
    assert(a@.states.len() == a.states.len());
    assert(b@.states.len() == b.states.len());
}

/// The rules are those of an augmented grammar without conflict at the
/// accepting state: the rule 0 has one symbol; its left-hand side, the start
/// symbol, stands on no right-hand side; no rule is empty; and no other rule
/// consists of the symbol of the rule 0 alone.
pub open spec fn augmented(rules: Seq<Rule>) -> bool {
    &&& rules.len() > 0
    &&& rules[0].rhs.len() == 1
    &&& forall|i: int, k: int|
        0 <= i < rules.len() && 0 <= k < rules[i].rhs.len() ==> #[trigger] rules[i].rhs[k]
            != Symbol::NonTerminal(rules[0].lhs)
    &&& forall|q: int| 0 <= q < rules.len() ==> (#[trigger] rules[q]).rhs.len() > 0
    &&& forall|q: int|
        0 < q < rules.len() && (#[trigger] rules[q]).rhs.len() == 1 ==> rules[q].rhs[0]
            != rules[0].rhs[0]
}

/// The rules of the calculator are such rules.
pub proof fn lemma_calculator_augmented()
    ensures
        augmented(calculator_rules()),
{
    reveal(calculator_rules);
    let rules = calculator_rules();
    assert(rules.len() == 10);
    assert forall|i: int, k: int|
        0 <= i < rules.len() && 0 <= k < rules[i].rhs.len() implies #[trigger] rules[i].rhs[k]
        != Symbol::NonTerminal(rules[0].lhs) by {
        if i == 0 {
        } else if i == 1 {
        } else if i == 2 {
        } else if i == 3 {
        } else if i == 4 {
        } else if i == 5 {
        } else if i == 6 {
        } else if i == 7 {
        } else if i == 8 {
        } else {
        }
    }
}

/// No item of the closure of a kernel has the rule 0 with the dot in front,
/// unless the kernel has it.
pub proof fn lemma_start_not_predicted(rules: Seq<Rule>, kernel: Set<LrItem>, item: LrItem)
    requires
        augmented(rules),
        closure_of(rules, kernel).contains(item),
        item.production_id == 0,
    ensures
        kernel.contains(item),
{
    lemma_closure_origin(rules, kernel, item);
    if !kernel.contains(item) {
        let a = choose|a: LrItem| #[trigger]
            predicts(rules, a, item) && closure_of(rules, kernel).contains(a);
        assert(rules[a.production_id as int].rhs[a.dot_position as int] == Symbol::NonTerminal(
            rules[0].lhs,
        ));
    }
}

/// Every item of the first state has the dot in front.
proof fn lemma_first_state_dots(rules: Seq<Rule>, states: Seq<Set<LrItem>>, item: LrItem)
    requires
        canonical(rules, states),
        states[0].contains(item),
    ensures
        item.dot_position == 0,
{
    lemma_closure_origin(rules, set![initial_item()], item);
}

/// The rule 0 with the dot in front stands in the first state only, as the
/// initial item.
pub proof fn lemma_start_item_place(rules: Seq<Rule>, states: Seq<Set<LrItem>>, k: int,
    item: LrItem)
    requires
        augmented(rules),
        canonical(rules, states),
        0 <= k < states.len(),
        states[k].contains(item),
        item.production_id == 0,
        item.dot_position == 0,
    ensures
        k == 0,
        item == initial_item(),
{
    if k == 0 {
        lemma_start_not_predicted(rules, set![initial_item()], item);
    } else {
        assert(discovered(rules, states, k));
        let (s, y) = choose|s: int, y: int| #[trigger] discovers(rules, states, s, y, k);
        lemma_start_not_predicted(rules, kernel_of(rules, states[s], Symbol::at_ordinal(y)), item);
    }
}

/// The rule 0 read to its end stands only in the state that the first state
/// leads to on the symbol of the rule 0, and only with the end of input as
/// lookahead.
proof fn lemma_accept_item_place(rules: Seq<Rule>, states: Seq<Set<LrItem>>, k: int, u: TokenType)
    requires
        augmented(rules),
        canonical(rules, states),
        0 <= k < states.len(),
        acceptable(rules, states[k], u),
    ensures
        u == TokenType::Eof,
        states[k] == target_of(rules, states[0], rules[0].rhs[0]),
{
    let item = LrItem { production_id: 0, dot_position: 1, lookahead: u };
    if k == 0 {
        lemma_first_state_dots(rules, states, item);
    } else {
        assert(discovered(rules, states, k));
        let (s, y) = choose|s: int, y: int| #[trigger] discovers(rules, states, s, y, k);
        let kernel = kernel_of(rules, states[s], Symbol::at_ordinal(y));
        lemma_closure_dot(rules, kernel, item);
        assert(states[s].contains(retreated(item)));
        lemma_start_item_place(rules, states, s, retreated(item));
    }
}

/// The state that the first state leads to on the symbol of the rule 0
/// holds no other rule read to its end.
proof fn lemma_accept_state_clear(rules: Seq<Rule>, states: Seq<Set<LrItem>>, q: int, t: TokenType)
    requires
        augmented(rules),
        canonical(rules, states),
        rules.len() <= usize::MAX,
        0 < q < rules.len() ==> rules[q].rhs.len() <= usize::MAX,
    ensures
        !reducible(rules, target_of(rules, states[0], rules[0].rhs[0]), q, t),
{
    let kernel = kernel_of(rules, states[0], rules[0].rhs[0]);
    if reducible(rules, closure_of(rules, kernel), q, t) {
        let item = LrItem {
            production_id: q as usize,
            dot_position: rules[q].rhs.len() as usize,
            lookahead: t,
        };
        assert(rules[q].rhs.len() > 0);
        lemma_closure_dot(rules, kernel, item);
        lemma_first_state_dots(rules, states, retreated(item));
        assert(item.production_id == q);
        assert(rules[q].rhs.len() == 1);
        assert(after_dot(rules, retreated(item)) == Some(rules[q].rhs[0]));
    }
}

/// The table has exactly one accepting entry. It stands at the end of input
/// in the one state that holds the rule 0 read to its end.
pub proof fn lemma_one_accept(table: &LrTable) -> (accepting: int)
    requires
        table.wf(),
        augmented(table.rules()),
    ensures
        0 <= accepting < table.states.len(),
        table.state_sets()[accepting].contains(
            LrItem { production_id: 0, dot_position: 1, lookahead: TokenType::Eof },
        ),
        forall|s: int, t: TokenType|
            0 <= s < table.states.len() ==> ((#[trigger] table.action_entry(s, t)) == Some(
                Action::Accept,
            ) <==> s == accepting && t == TokenType::Eof),
{
    let rules = table.rules();
    let states = table.state_sets();
    let x = rules[0].rhs[0];
    let target = target_of(rules, states[0], x);
    let finished = LrItem { production_id: 0, dot_position: 1, lookahead: TokenType::Eof };

    // The first state leads somewhere on the symbol of the rule 0.
    lemma_closure_holds_kernel(rules, set![initial_item()]);
    assert(states[0].contains(initial_item()));
    assert(retreated(finished) == initial_item());
    assert(kernel_of(rules, states[0], x).contains(finished));
    assert(has_edge(rules, states[0], x));
    Symbol::lemma_ordinal_bijective();
    assert(Symbol::at_ordinal(x.ordinal()) == x);
    assert(target_of(rules, states[0], Symbol::at_ordinal(x.ordinal())) == target);
    let accepting = choose|k: int|
        0 <= k < states.len() && #[trigger] states[k] == target_of(
            rules,
            states[0],
            Symbol::at_ordinal(x.ordinal()),
        );
    lemma_closure_holds_kernel(rules, kernel_of(rules, states[0], x));
    assert(states[accepting].contains(finished));
    assert(acceptable(rules, states[accepting], TokenType::Eof));

    assert forall|s: int, t: TokenType| 0 <= s < table.states.len() implies ((
    #[trigger] table.action_entry(s, t)) == Some(Action::Accept) <==> s == accepting && t
        == TokenType::Eof) by {
        let a = table.action_entry(s, t);
        assert(action_justified(rules, states, s, t, a));
        if a == Some(Action::Accept) {
            let u = choose|u: TokenType| #[trigger] acceptable(rules, states[s], u);
            lemma_accept_item_place(rules, states, s, u);
            if s < accepting {
                assert(states[s] != states[accepting]);
            }
            if accepting < s {
                assert(states[accepting] != states[s]);
            }
        }
        if s == accepting && t == TokenType::Eof {
            match a {
                Some(Action::Reduce(r)) => {
                    assert(rules.len() == table.grammar.productions.len());
                    if 0 < r < rules.len() {
                        assert(rules[r as int].rhs.len()
                            == table.grammar.productions[r as int].rhs.len());
                    }
                    lemma_accept_state_clear(rules, states, r as int, t);
                },
                _ => {},
            }
        }
    }
    accepting
}

/// A state that holds the rule 0 read to its end accepts at the end of
/// input.
pub proof fn lemma_accept_entry(table: &LrTable, s: int, u: TokenType)
    requires
        table.wf(),
        augmented(table.rules()),
        0 <= s < table.states.len(),
        acceptable(table.rules(), table.state_sets()[s], u),
    ensures
        table.action_entry(s, TokenType::Eof) == Some(Action::Accept),
{
    let rules = table.rules();
    let states = table.state_sets();
    let accepting = lemma_one_accept(table);
    assert(acceptable(rules, states[accepting], TokenType::Eof));
    lemma_accept_item_place(rules, states, s, u);
    lemma_accept_item_place(rules, states, accepting, TokenType::Eof);
    if s < accepting {
        assert(states[s] != states[accepting]);
    }
    if accepting < s {
        assert(states[accepting] != states[s]);
    }
}

/// The same for the table of the calculator's grammar.
pub proof fn lemma_calculator_one_accept(table: &LrTable) -> (accepting: int)
    requires
        table.wf(),
        table.rules() == calculator_rules(),
    ensures
        0 <= accepting < table.states.len(),
        table.state_sets()[accepting].contains(
            LrItem { production_id: 0, dot_position: 1, lookahead: TokenType::Eof },
        ),
        forall|s: int, t: TokenType|
            0 <= s < table.states.len() ==> ((#[trigger] table.action_entry(s, t)) == Some(
                Action::Accept,
            ) <==> s == accepting && t == TokenType::Eof),
{
    lemma_calculator_augmented();
    lemma_one_accept(table)
}

/// FIRST is what its name says: the tokens that spell a non-terminal begin
/// with a terminal of its FIRST set.
pub proof fn lemma_first_begins(n: NonTerminal, e: ExprView, tokens: Seq<TokenView>)
    requires
        spells(n, e, tokens),
    ensures
        tokens.len() > 0,
        first_of(calculator_rules(), Symbol::NonTerminal(n)).contains(tokens[0].token_type),
    decreases tokens.len(), level(n),
{
    let rules = calculator_rules();
    lemma_calculator_rules();
    let t = tokens[0].token_type;
    match n {
        NonTerminal::Start => {
            lemma_first_begins(NonTerminal::Expr, e, tokens);
            lemma_first_of_rule(rules, 0);
        },
        NonTerminal::Expr => {
            if spells(NonTerminal::Term, e, tokens) {
                lemma_first_begins(NonTerminal::Term, e, tokens);
                lemma_first_of_rule(rules, 3);
            } else {
                let k = choose|k: int|
                    0 < k < tokens.len() - 1 && additive((#[trigger] tokens[k]).token_type) is Some
                        && e is Binary && e->Binary_op == additive(tokens[k].token_type)->Some_0
                        && spells(NonTerminal::Expr, *e->left, tokens.take(k)) && spells(
                        NonTerminal::Term,
                        *e->right,
                        tokens.skip(k + 1),
                    );
                lemma_first_begins(NonTerminal::Expr, *e->left, tokens.take(k));
                assert(tokens.take(k)[0] == tokens[0]);
            }
        },
        NonTerminal::Term => {
            if spells(NonTerminal::Factor, e, tokens) {
                lemma_first_begins(NonTerminal::Factor, e, tokens);
                lemma_first_of_rule(rules, 6);
            } else {
                let k = choose|k: int|
                    0 < k < tokens.len() - 1
                        && multiplicative((#[trigger] tokens[k]).token_type) is Some
                        && e is Binary && e->Binary_op == multiplicative(
                        tokens[k].token_type,
                    )->Some_0 && spells(NonTerminal::Term, *e->left, tokens.take(k)) && spells(
                        NonTerminal::Factor,
                        *e->right,
                        tokens.skip(k + 1),
                    );
                lemma_first_begins(NonTerminal::Term, *e->left, tokens.take(k));
                assert(tokens.take(k)[0] == tokens[0]);
            }
        },
        NonTerminal::Factor => {
            lemma_first_of_terminal(rules, t);
            if t == TokenType::Number {
                lemma_first_of_rule(rules, 8);
            } else if t == TokenType::Minus {
                lemma_first_of_rule(rules, 9);
            } else {
                lemma_first_of_rule(rules, 7);
            }
        },
    }
}

} // verus!
