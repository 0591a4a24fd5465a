//! A human-readable listing of the states and tables.

use crate::grammar::{NonTerminal, Production, Rule, Symbol};
use crate::item_set::LrItem;
use crate::lr_table::{Action, LrTable};
use crate::text::{decimal, decimal_of};
use crate::token::TokenType;
use vstd::prelude::*;
use vstd::string::StringExecFns;

verus! {

/// The first `n` symbols of a right-hand side, each behind a space, with the
/// dot before the symbol at its position.
pub open spec fn symbols_text(rhs: Seq<Symbol>, dot: int, n: int) -> Seq<char>
    decreases n,
{
    if n <= 0 {
        Seq::empty()
    } else {
        symbols_text(rhs, dot, n - 1) + (if n - 1 == dot {
            " •"@
        } else {
            Seq::empty()
        }) + " "@ + rhs[n - 1].spec_name()
    }
}

/// An item as the listing shows it: the rule with the dot, and the
/// lookahead.
pub open spec fn item_text(rules: Seq<Rule>, item: LrItem) -> Seq<char> {
    let rule = rules[item.production_id as int];
    rule.lhs.spec_name() + " ->"@ + symbols_text(rule.rhs, item.dot_position as int,
        rule.rhs.len() as int)
        + (if item.dot_position == rule.rhs.len() {
        " •"@
    } else {
        Seq::empty()
    }) + ", "@ + item.lookahead.spec_name()
}

/// An action as the listing shows it.
pub open spec fn action_text(action: Action) -> Seq<char> {
    match action {
        Action::Shift(state) => "Shift("@ + decimal_of(state as nat) + ")"@,
        Action::Reduce(production) => "Reduce("@ + decimal_of(production as nat) + ")"@,
        Action::Accept => "Accept"@,
    }
}

/// An action in its short form: `s` and the state of a shift, `r` and the
/// rule of a reduction, `acc` for acceptance.
pub open spec fn action_code(action: Action) -> Seq<char> {
    match action {
        Action::Shift(state) => "s"@ + decimal_of(state as nat),
        Action::Reduce(production) => "r"@ + decimal_of(production as nat),
        Action::Accept => "acc"@,
    }
}

/// A rule as the listings show it: the left-hand side, an arrow, and the
/// symbols of the right-hand side.
pub open spec fn rule_text(rule: Rule) -> Seq<char> {
    rule.lhs.spec_name() + " ->"@ + symbols_text(rule.rhs, -1, rule.rhs.len() as int)
}

/// The terminals in the order of their names.
pub open spec fn terminals_by_name() -> Seq<TokenType> {
    seq![
        TokenType::Eof,
        TokenType::LeftParen,
        TokenType::Minus,
        TokenType::Number,
        TokenType::Plus,
        TokenType::RightParen,
        TokenType::Slash,
        TokenType::Star,
    ]
}

/// The non-terminals in the order of their names.
pub open spec fn non_terminals_by_name() -> Seq<NonTerminal> {
    seq![NonTerminal::Expr, NonTerminal::Factor, NonTerminal::Start, NonTerminal::Term]
}

/// The lines for the items among the first `n` places of a state, in the
/// order of rule, dot position and lookahead. A place is a rule, a dot
/// position and a lookahead; the places of the rule `p` at the dot `d` are
/// counted from `8 * d`.
pub open spec fn item_lines(table: LrTable, state: int, p: int, n: int) -> Seq<Seq<char>>
    decreases n,
{
    if n <= 0 {
        Seq::empty()
    } else {
        let item = LrItem {
            production_id: p as usize,
            dot_position: ((n - 1) / 8) as usize,
            lookahead: TokenType::at_ordinal((n - 1) % 8),
        };
        if table.state_sets()[state].contains(item) {
            item_lines(table, state, p, n - 1).push("  "@ + item_text(table.rules(), item))
        } else {
            item_lines(table, state, p, n - 1)
        }
    }
}

/// The lines for the items of the first `n` rules in a state.
pub open spec fn rule_lines(table: LrTable, state: int, n: int) -> Seq<Seq<char>>
    decreases n,
{
    if n <= 0 {
        Seq::empty()
    } else {
        rule_lines(table, state, n - 1) + item_lines(
            table,
            state,
            n - 1,
            8 * (table.rules()[n - 1].rhs.len() as int + 1),
        )
    }
}

/// The lines for the actions of a state on the first `n` terminals in the
/// order of their names.
pub open spec fn action_lines(table: LrTable, state: int, n: int) -> Seq<Seq<char>>
    decreases n,
{
    if n <= 0 {
        Seq::empty()
    } else {
        let terminal = terminals_by_name()[n - 1];
        match table.action_entry(state, terminal) {
            Some(action) => action_lines(table, state, n - 1).push(
                "    "@ + terminal.spec_name() + " -> "@ + action_text(action),
            ),
            None => action_lines(table, state, n - 1),
        }
    }
}

/// The lines for the gotos of a state on the first `n` non-terminals in the
/// order of their names.
pub open spec fn goto_lines(table: LrTable, state: int, n: int) -> Seq<Seq<char>>
    decreases n,
{
    if n <= 0 {
        Seq::empty()
    } else {
        let non_terminal = non_terminals_by_name()[n - 1];
        match table.goto_entry(state, non_terminal) {
            Some(target) => goto_lines(table, state, n - 1).push(
                "    "@ + non_terminal.spec_name() + " -> "@ + decimal_of(target as nat),
            ),
            None => goto_lines(table, state, n - 1),
        }
    }
}

/// The lines for a state: an empty line, the heading with the state's id,
/// the items, and the actions and the gotos under their headings where
/// there are any.
pub open spec fn state_lines(table: LrTable, state: int) -> Seq<Seq<char>> {
    let actions = action_lines(table, state, 8);
    let gotos = goto_lines(table, state, 4);
    seq![Seq::empty(), "State "@ + decimal_of(table.states[state].id as nat) + ":"@] + rule_lines(
        table,
        state,
        table.rules().len() as int,
    ) + (if actions.len() > 0 {
        seq!["  Actions:"@] + actions
    } else {
        Seq::empty()
    }) + (if gotos.len() > 0 {
        seq!["  Gotos:"@] + gotos
    } else {
        Seq::empty()
    })
}

/// The lines for the first `n` states.
pub open spec fn table_lines(table: LrTable, n: int) -> Seq<Seq<char>>
    decreases n,
{
    if n <= 0 {
        Seq::empty()
    } else {
        table_lines(table, n - 1) + state_lines(table, n - 1)
    }
}

/// The lines as mathematical values.
pub open spec fn lines_view(lines: Seq<String>) -> Seq<Seq<char>> {
    Seq::new(lines.len(), |i: int| lines[i]@)
}

impl Action {
    /// The action in its short form.
    pub fn code(&self) -> (text: String)
        ensures
            text@ == action_code(*self),
    {
        match self {
            Action::Shift(state) => {
                let mut text = String::from_str("s");
                text.append(decimal(*state).as_str());
                text
            },
            Action::Reduce(production) => {
                let mut text = String::from_str("r");
                text.append(decimal(*production).as_str());
                text
            },
            Action::Accept => String::from_str("acc"),
        }
    }
}

impl Production {
    /// The rule as the listings show it.
    pub fn text(&self) -> (text: String)
        ensures
            text@ == rule_text(self@),
    {
        let mut result = String::from_str(self.lhs.name());
        result.append(" ->");
        let ghost head = result@;
        let mut i: usize = 0;
        while i < self.rhs.len()
            invariant
                i <= self.rhs.len(),
                result@ == head + symbols_text(self.rhs@, -1, i as int),
            decreases self.rhs.len() - i,
        {
            result.push(' ');
            result.append(self.rhs[i].name());
            proof {
                reveal_strlit(" ");
                assert(result@ =~= head + symbols_text(self.rhs@, -1, i + 1));
            }
            i += 1;
        }
        result
    }
}

impl LrTable {
    /// Format an LR item for display
    pub fn format_item(&self, item: &LrItem) -> (text: String)
        requires
            item.production_id < self.grammar.productions.len(),
        ensures
            text@ == item_text(self.rules(), *item),
    {
        let production = &self.grammar.productions[item.production_id];
        assert(self.rules()[item.production_id as int] == production@);
        let mut result = String::from_str(production.lhs.name());
        result.append(" ->");
        let ghost head = result@;

        let mut i: usize = 0;
        while i < production.rhs.len()
            invariant
                i <= production.rhs.len(),
                result@ == head + symbols_text(production.rhs@, item.dot_position as int, i as int),
            decreases production.rhs.len() - i,
        {
            if i == item.dot_position {
                result.append(" •");
            }
            result.push(' ');
            result.append(production.rhs[i].name());
            proof {
                reveal_strlit(" ");
                assert(result@ =~= head + symbols_text(
                    production.rhs@,
                    item.dot_position as int,
                    i + 1,
                ));
            }
            i += 1;
        }

        if item.dot_position == production.rhs.len() {
            result.append(" •");
        }
        result.append(", ");
        result.append(item.lookahead.name());
        assert(result@ =~= item_text(self.rules(), *item));
        result
    }

    /// An action as the listing shows it.
    pub fn format_action(action: &Action) -> (text: String)
        ensures
            text@ == action_text(*action),
    {
        match action {
            Action::Shift(state) => {
                let mut text = String::from_str("Shift(");
                text.append(decimal(*state).as_str());
                text.append(")");
                text
            },
            Action::Reduce(production) => {
                let mut text = String::from_str("Reduce(");
                text.append(decimal(*production).as_str());
                text.append(")");
                text
            },
            Action::Accept => String::from_str("Accept"),
        }
    }

    /// The parsing table in a human-readable format: for each state its
    /// items and its outgoing actions and gotos, one line each.
    pub fn listing(&self) -> (lines: Vec<String>)
        requires
            self.wf(),
        ensures
            lines_view(lines@) == table_lines(*self, self.states.len() as int),
    {
        let mut lines: Vec<String> = Vec::new();
        let mut state: usize = 0;
        proof {
            assert(lines_view(lines@) =~= Seq::<Seq<char>>::empty());
        }
        while state < self.states.len()
            invariant
                self.wf(),
                state <= self.states.len(),
                lines_view(lines@) == table_lines(*self, state as int),
            decreases self.states.len() - state,
        {
            let mut more = self.state_listing(state);
            let ghost before = lines@;
            let ghost added = lines_view(more@);
            lines.append(&mut more);
            proof {
                assert(lines_view(lines@) =~= lines_view(before) + added);
            }
            state += 1;
        }
        lines
    }

    /// The lines of the listing for one state.
    pub fn state_listing(&self, state: usize) -> (lines: Vec<String>)
        requires
            self.wf(),
            state < self.states.len(),
        ensures
            lines_view(lines@) == state_lines(*self, state as int),
    {
        let mut lines: Vec<String> = Vec::new();
        lines.push(String::new());
        let mut heading = String::from_str("State ");
        heading.append(decimal(self.states[state].id).as_str());
        heading.append(":");
        lines.push(heading);
        let ghost top = lines_view(lines@);
        assert(top =~= seq![
            Seq::<char>::empty(),
            "State "@ + decimal_of(self.states[state as int].id as nat) + ":"@,
        ]);

        // Print the items of this state
        let mut p: usize = 0;
        while p < self.grammar.productions.len()
            invariant
                self.wf(),
                state < self.states.len(),
                p <= self.grammar.productions.len(),
                lines_view(lines@) == top + rule_lines(*self, state as int, p as int),
            decreases self.grammar.productions.len() - p,
        {
            let n = self.grammar.productions[p].rhs.len();
            assert(self.rules()[p as int].rhs.len() == n);
            let ghost base = lines_view(lines@);
            let mut d: usize = 0;
            loop
                invariant_except_break
                    lines_view(lines@) == base + item_lines(*self, state as int, p as int, 8 * d),
                invariant
                    self.wf(),
                    state < self.states.len(),
                    p < self.grammar.productions.len(),
                    n == self.rules()[p as int].rhs.len(),
                    d <= n,
                ensures
                    lines_view(lines@) == base + item_lines(
                        *self,
                        state as int,
                        p as int,
                        8 * (n + 1),
                    ),
                decreases n - d,
            {
                let mut l: usize = 0;
                while l < 8
                    invariant
                        self.wf(),
                        state < self.states.len(),
                        p < self.grammar.productions.len(),
                        n == self.rules()[p as int].rhs.len(),
                        d <= n,
                        l <= 8,
                        lines_view(lines@) == base + item_lines(
                            *self,
                            state as int,
                            p as int,
                            8 * d + l,
                        ),
                    decreases 8 - l,
                {
                    let item = LrItem {
                        production_id: p,
                        dot_position: d,
                        lookahead: TokenType::from_index(l),
                    };
                    proof {
                        assert((8 * d + l) / 8 == d && (8 * d + l) % 8 == l);
                        assert(self.state_sets()[state as int] == self.states[state as int].items@);
                    }
                    if self.states[state].items.contains(&item) {
                        let mut line = String::from_str("  ");
                        line.append(self.format_item(&item).as_str());
                        let ghost prior = lines@;
                        lines.push(line);
                        assert(lines_view(lines@) =~= lines_view(prior).push(line@));
                    }
                    l += 1;
                }
                if d == n {
                    break ;
                }
                d += 1;
            }
            assert(lines_view(lines@) =~= top + rule_lines(*self, state as int, p + 1));
            p += 1;
        }
        let ghost items = lines_view(lines@);

        // Print actions for this state
        let by_name = [
            TokenType::Eof,
            TokenType::LeftParen,
            TokenType::Minus,
            TokenType::Number,
            TokenType::Plus,
            TokenType::RightParen,
            TokenType::Slash,
            TokenType::Star,
        ];
        let mut actions: Vec<String> = Vec::new();
        let mut i: usize = 0;
        proof {
            assert(lines_view(actions@) =~= Seq::<Seq<char>>::empty());
        }
        while i < 8
            invariant
                self.wf(),
                i <= 8,
                by_name@ == terminals_by_name(),
                lines_view(actions@) == action_lines(*self, state as int, i as int),
            decreases 8 - i,
        {
            let terminal = by_name[i];
            match self.action(state, terminal) {
                Some(action) => {
                    let mut line = String::from_str("    ");
                    line.append(terminal.name());
                    line.append(" -> ");
                    line.append(LrTable::format_action(action).as_str());
                    let ghost prior = actions@;
                    actions.push(line);
                    assert(lines_view(actions@) =~= lines_view(prior).push(line@));
                },
                None => {},
            }
            i += 1;
        }
        if actions.len() > 0 {
            let ghost prior = lines@;
            let heading = String::from_str("  Actions:");
            lines.push(heading);
            let ghost added = lines_view(actions@);
            lines.append(&mut actions);
            assert(lines_view(lines@) =~= lines_view(prior) + (seq!["  Actions:"@] + added));
        }
        let ghost with_actions = lines_view(lines@);

        // Print gotos for this state
        let by_name = [NonTerminal::Expr, NonTerminal::Factor, NonTerminal::Start,
            NonTerminal::Term];
        let mut gotos: Vec<String> = Vec::new();
        let mut i: usize = 0;
        proof {
            assert(lines_view(gotos@) =~= Seq::<Seq<char>>::empty());
        }
        while i < 4
            invariant
                self.wf(),
                i <= 4,
                by_name@ == non_terminals_by_name(),
                lines_view(gotos@) == goto_lines(*self, state as int, i as int),
            decreases 4 - i,
        {
            let non_terminal = by_name[i];
            match self.goto(state, non_terminal) {
                Some(target) => {
                    let mut line = String::from_str("    ");
                    line.append(non_terminal.name());
                    line.append(" -> ");
                    line.append(decimal(target).as_str());
                    let ghost prior = gotos@;
                    gotos.push(line);
                    assert(lines_view(gotos@) =~= lines_view(prior).push(line@));
                },
                None => {},
            }
            i += 1;
        }
        if gotos.len() > 0 {
            let ghost prior = lines@;
            let heading = String::from_str("  Gotos:");
            lines.push(heading);
            let ghost added = lines_view(gotos@);
            lines.append(&mut gotos);
            assert(lines_view(lines@) =~= lines_view(prior) + (seq!["  Gotos:"@] + added));
        }
        assert(lines_view(lines@) =~= state_lines(*self, state as int));
        lines
    }
}

} // verus!
