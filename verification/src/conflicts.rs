//! Conflicts: places of the action table for which two entries compete.
//!
//! A table can be asked whether it has a conflict. The table of the
//! calculator's grammar has none: every state of its canonical collection
//! holds only items of one of eighteen families. A family is given by the
//! rules and dot positions that its items may have; the lookahead of an item
//! is always a terminal that can follow the rule's left-hand side. No family
//! allows two entries for one place of the action table.

use crate::automaton::{
    acceptable, canonical, closure_of, discovered, discovers, has_edge, initial_item, kernel_of,
    lemma_closure_least, predicts, reducible, retreated,
};
use crate::first_follow::lemma_first_of_terminal;
use crate::grammar::{calculator_rules, lemma_calculator_rules, NonTerminal, Rule, Symbol};
use crate::item_set::LrItem;
use crate::lr_table::LrTable;
use crate::token::TokenType;
use vstd::prelude::*;

verus! {

/// No two entries compete for the place of the terminal in the action
/// table of a state with these items: at most one rule is read to its end
/// with the terminal as lookahead, and none where the terminal can be
/// shifted; and where the state accepts at the end of input, nothing else
/// has its place there.
pub open spec fn cell_clear(rules: Seq<Rule>, items: Set<LrItem>, t: TokenType) -> bool {
    &&& forall|q1: int, q2: int|
        #![trigger reducible(rules, items, q1, t), reducible(rules, items, q2, t)]
        reducible(rules, items, q1, t) && reducible(rules, items, q2, t) ==> q1 == q2
    &&& has_edge(rules, items, Symbol::Terminal(t)) ==> forall|q: int|
        !#[trigger] reducible(rules, items, q, t)
    &&& (t == TokenType::Eof && exists|u: TokenType| #[trigger] acceptable(rules, items, u)) ==> {
        &&& !has_edge(rules, items, Symbol::Terminal(t))
        &&& forall|q: int| !#[trigger] reducible(rules, items, q, t)
    }
}

/// The table has no conflict: in no state two entries compete for a place
/// of the action table.
pub open spec fn conflict_free(rules: Seq<Rule>, states: Seq<Set<LrItem>>) -> bool {
    forall|s: int, t: TokenType|
        0 <= s < states.len() ==> #[trigger] cell_clear(rules, states[s], t)
}

impl LrTable {
    /// Whether no two entries compete for the place of the terminal in the
    /// action table of the state.
    pub fn cell_is_clear(&self, state: usize, terminal: TokenType) -> (clear: bool)
        requires
            self.wf(),
            state < self.states.len(),
        ensures
            clear == cell_clear(self.rules(), self.state_sets()[state as int], terminal),
    {
        let ghost rules = self.rules();
        let ghost items = self.state_sets()[state as int];
        assert(items == self.states[state as int].items@);
        // A rule that is read to its end with the terminal as lookahead.
        let mut found: Option<usize> = None;
        let mut p: usize = 1;
        while p < self.grammar.productions.len()
            invariant
                self.wf(),
                rules == self.rules(),
                state < self.states.len(),
                items == self.states[state as int].items@,
                1 <= p <= self.grammar.productions.len(),
                found matches Some(q) ==> 0 < q < p && reducible(rules, items, q as int, terminal),
                found matches Some(q) ==> forall|r: int|
                    0 < r < p && #[trigger] reducible(rules, items, r, terminal) ==> r == q,
                found is None ==> forall|r: int|
                    0 < r < p ==> !#[trigger] reducible(rules, items, r, terminal),
            decreases self.grammar.productions.len() - p,
        {
            let end = self.grammar.productions[p].rhs.len();
            assert(rules[p as int].rhs.len() == end);
            let item = LrItem { production_id: p, dot_position: end, lookahead: terminal };
            if self.states[state].items.contains(&item) {
                assert(reducible(rules, items, p as int, terminal));
                match found {
                    Some(q) => {
                        // Two rules compete for the place.
                        assert(reducible(rules, items, q as int, terminal));
                        return false;
                    },
                    None => {
                        found = Some(p);
                    },
                }
            }
            p += 1;
        }
        assert(rules.len() == self.grammar.productions.len());
        let accept = terminal == TokenType::Eof && self.accepts_in(state);
        let kernel = self.goto_kernel(&self.states[state].items, Symbol::Terminal(terminal));
        let shift = !kernel.is_empty();
        proof {
            let edge = has_edge(rules, items, Symbol::Terminal(terminal));
            if edge {
                let k = choose|k: LrItem|
                    kernel_of(rules, items, Symbol::Terminal(terminal)).contains(k);
                assert(kernel@.contains(k));
            }
            if shift {
                if !edge {
                    assert(kernel@ =~= Set::<LrItem>::empty());
                }
            }
            assert(shift == edge);
            if found is Some {
                assert(reducible(rules, items, found->Some_0 as int, terminal));
            }
        }
        !(shift && found.is_some()) && !(accept && (shift || found.is_some()))
    }

    /// Whether the state holds the rule 0 read to its end.
    pub fn accepts_in(&self, state: usize) -> (accept: bool)
        requires
            self.wf(),
            state < self.states.len(),
        ensures
            accept == exists|u: TokenType| #[trigger]
                acceptable(self.rules(), self.state_sets()[state as int], u),
    {
        let ghost rules = self.rules();
        let ghost items = self.state_sets()[state as int];
        assert(items == self.states[state as int].items@);
        let end = self.grammar.productions[0].rhs.len();
        assert(rules[0].rhs.len() == end);
        let mut l: usize = 0;
        while l < 8
            invariant
                self.wf(),
                rules == self.rules(),
                state < self.states.len(),
                items == self.states[state as int].items@,
                end == rules[0].rhs.len(),
                l <= 8,
                forall|u: TokenType| u.ordinal() < l ==> !#[trigger] acceptable(rules, items, u),
            decreases 8 - l,
        {
            let item = LrItem {
                production_id: 0,
                dot_position: end,
                lookahead: TokenType::from_index(l),
            };
            if self.states[state].items.contains(&item) {
                assert(acceptable(self.rules(), self.state_sets()[state as int], item.lookahead));
                return true;
            }
            assert forall|u: TokenType| u.ordinal() < l + 1 implies !#[trigger] acceptable(
                rules,
                items,
                u,
            ) by {
                if u.ordinal() == l {
                    assert(TokenType::at_ordinal(u.ordinal()) == u);
                }
            }
            l += 1;
        }
        false
    }

    /// Whether the table has no conflict.
    pub fn is_deterministic(&self) -> (ok: bool)
        requires
            self.wf(),
        ensures
            ok == conflict_free(self.rules(), self.state_sets()),
    {
        let ghost rules = self.rules();
        let ghost sets = self.state_sets();
        let mut state: usize = 0;
        while state < self.states.len()
            invariant
                self.wf(),
                rules == self.rules(),
                sets == self.state_sets(),
                state <= self.states.len(),
                forall|s: int, t: TokenType| 0 <= s < state ==>
                    #[trigger] cell_clear(rules, sets[s], t),
            decreases self.states.len() - state,
        {
            let mut l: usize = 0;
            while l < 8
                invariant
                    self.wf(),
                    rules == self.rules(),
                    sets == self.state_sets(),
                    state < self.states.len(),
                    l <= 8,
                    forall|t: TokenType|
                        t.ordinal() < l ==> #[trigger] cell_clear(rules, sets[state as int], t),
                decreases 8 - l,
            {
                let terminal = TokenType::from_index(l);
                if !self.cell_is_clear(state, terminal) {
                    assert(!cell_clear(rules, sets[state as int], terminal));
                    return false;
                }
                assert forall|t: TokenType| t.ordinal() < l + 1 implies #[trigger] cell_clear(
                    rules,
                    sets[state as int],
                    t,
                ) by {
                    if t.ordinal() == l {
                        assert(TokenType::at_ordinal(t.ordinal()) == t);
                    }
                }
                l += 1;
            }
            state += 1;
        }
        true
    }
}

/// The terminal can follow the non-terminal.
pub open spec fn follows(n: NonTerminal, t: TokenType) -> bool {
    match n {
        NonTerminal::Start => t == TokenType::Eof,
        NonTerminal::Expr => t == TokenType::Plus || t == TokenType::Minus || t
            == TokenType::RightParen || t == TokenType::Eof,
        NonTerminal::Term | NonTerminal::Factor => t == TokenType::Plus || t == TokenType::Minus
            || t == TokenType::Star || t == TokenType::Slash || t == TokenType::RightParen || t
            == TokenType::Eof,
    }
}

/// The rules and dot positions of the kernel of a family: the items with
/// which a state of the family is entered.
///
/// The families are numbered as their states are discovered when lookaheads
/// are left aside. 0 is the first state. 1, 2 and 3 are entered on a number,
/// on a minus sign in front of a factor and on a left parenthesis; 4, 5 and 6
/// on the expression at the start, on a term that begins an expression and
/// on a factor that begins a term; 7 on the factor behind a minus sign; 8 on
/// the expression behind a left parenthesis; 9, 10, 11 and 12 on `+`, `-`,
/// `*` and `/` behind their left operand; 13 on the right parenthesis; 14
/// and 15 on the term behind `+` and `-`; 16 and 17 on the factor behind `*`
/// and `/`.
pub open spec fn kernel_core(family: int, p: int, d: int) -> bool {
    if family == 0 {
        p == 0 && d == 0
    } else if family == 1 {
        p == 8 && d == 1
    } else if family == 2 {
        p == 9 && d == 1
    } else if family == 3 {
        p == 7 && d == 1
    } else if family == 4 {
        (p == 0 || p == 1 || p == 2) && d == 1
    } else if family == 5 {
        (p == 3 || p == 4 || p == 5) && d == 1
    } else if family == 6 {
        p == 6 && d == 1
    } else if family == 7 {
        p == 9 && d == 2
    } else if family == 8 {
        ((p == 1 || p == 2) && d == 1) || (p == 7 && d == 2)
    } else if family == 9 {
        p == 1 && d == 2
    } else if family == 10 {
        p == 2 && d == 2
    } else if family == 11 {
        p == 4 && d == 2
    } else if family == 12 {
        p == 5 && d == 2
    } else if family == 13 {
        p == 7 && d == 3
    } else if family == 14 {
        (p == 1 && d == 3) || ((p == 4 || p == 5) && d == 1)
    } else if family == 15 {
        (p == 2 && d == 3) || ((p == 4 || p == 5) && d == 1)
    } else if family == 16 {
        p == 4 && d == 3
    } else if family == 17 {
        p == 5 && d == 3
    } else {
        false
    }
}

/// The non-terminals whose rules a family holds with the dot in front: those
/// that a state of the family is about to read.
pub open spec fn expects(family: int, n: NonTerminal) -> bool {
    if family == 0 || family == 3 {
        n != NonTerminal::Start
    } else if family == 9 || family == 10 {
        n == NonTerminal::Term || n == NonTerminal::Factor
    } else if family == 2 || family == 11 || family == 12 {
        n == NonTerminal::Factor
    } else {
        false
    }
}

/// The family that a family leads to on a symbol; -1 where it leads nowhere.
pub open spec fn next_family(family: int, x: Symbol) -> int {
    match x {
        Symbol::Terminal(TokenType::Number) => if expects(family, NonTerminal::Factor) {
            1
        } else {
            -1
        },
        Symbol::Terminal(TokenType::LeftParen) => if expects(family, NonTerminal::Factor) {
            3
        } else {
            -1
        },
        Symbol::Terminal(TokenType::Minus) => if expects(family, NonTerminal::Factor) {
            2
        } else if family == 4 || family == 8 {
            10
        } else {
            -1
        },
        Symbol::Terminal(TokenType::Plus) => if family == 4 || family == 8 {
            9
        } else {
            -1
        },
        Symbol::Terminal(TokenType::Star) => if family == 5 || family == 14 || family == 15 {
            11
        } else {
            -1
        },
        Symbol::Terminal(TokenType::Slash) => if family == 5 || family == 14 || family == 15 {
            12
        } else {
            -1
        },
        Symbol::Terminal(TokenType::RightParen) => if family == 8 {
            13
        } else {
            -1
        },
        Symbol::Terminal(TokenType::Eof) => -1,
        Symbol::NonTerminal(NonTerminal::Start) => -1,
        Symbol::NonTerminal(NonTerminal::Expr) => if family == 0 {
            4
        } else if family == 3 {
            8
        } else {
            -1
        },
        Symbol::NonTerminal(NonTerminal::Term) => if family == 0 || family == 3 {
            5
        } else if family == 9 {
            14
        } else if family == 10 {
            15
        } else {
            -1
        },
        Symbol::NonTerminal(NonTerminal::Factor) => if family == 0 || family == 3 || family == 9
            || family
            == 10 {
            6
        } else if family == 2 {
            7
        } else if family == 11 {
            16
        } else if family == 12 {
            17
        } else {
            -1
        },
    }
}

/// The item is one that a state of the family may hold.
pub open spec fn allowed(family: int, item: LrItem) -> bool {
    let rules = calculator_rules();
    let p = item.production_id as int;
    let d = item.dot_position as int;
    &&& 0 <= p < 10
    &&& 0 <= d <= rules[p].rhs.len()
    &&& kernel_core(family, p, d) || (d == 0 && expects(family, rules[p].lhs))
    &&& follows(rules[p].lhs, item.lookahead)
}

/// The items are items that a state of the family may hold.
pub open spec fn of_family(items: Set<LrItem>, family: int) -> bool {
    &&& 0 <= family < 18
    &&& forall|item: LrItem| items.contains(item) ==> #[trigger] allowed(family, item)
}

/// What an item of a family brings in is an item of the family.
pub proof fn lemma_family_closed(family: int, a: LrItem, b: LrItem)
    requires
        0 <= family < 18,
        allowed(family, a),
        predicts(calculator_rules(), a, b),
    ensures
        allowed(family, b),
{
    lemma_calculator_rules();
    let rules = calculator_rules();
    let p = a.production_id as int;
    let d = a.dot_position as int;
    if d + 1 < rules[p].rhs.len() {
        let next = rules[p].rhs[d + 1];
        if p == 1 {
            lemma_first_of_terminal(rules, TokenType::Plus);
        } else if p == 2 {
            lemma_first_of_terminal(rules, TokenType::Minus);
        } else if p == 4 {
            lemma_first_of_terminal(rules, TokenType::Star);
        } else if p == 5 {
            lemma_first_of_terminal(rules, TokenType::Slash);
        } else if p == 7 {
            lemma_first_of_terminal(rules, TokenType::RightParen);
        }
    }
}

/// The closure of items of a family holds items of the family.
pub proof fn lemma_family_closure(family: int, kernel: Set<LrItem>)
    requires
        of_family(kernel, family),
    ensures
        of_family(closure_of(calculator_rules(), kernel), family),
{
    let rules = calculator_rules();
    let all = Set::new(|item: LrItem| allowed(family, item));
    assert forall|a: LrItem, b: LrItem| all.contains(a) && #[trigger] predicts(rules, a, b) implies
        all.contains(
        b,
    ) by {
        lemma_family_closed(family, a, b);
    }
    assert forall|item: LrItem| closure_of(rules, kernel).contains(item) implies #[trigger] allowed(
        family,
        item,
    ) by {
        let n = choose|n: nat| crate::automaton::derived_within(rules, kernel, item, n);
        lemma_closure_least(rules, kernel, all, item, n);
    }
}

/// The kernel that items of a family give on a symbol holds items of the family
/// that the family leads to on the symbol.
pub proof fn lemma_family_kernel(family: int, items: Set<LrItem>, x: Symbol)
    requires
        of_family(items, family),
        has_edge(calculator_rules(), items, x),
    ensures
        of_family(kernel_of(calculator_rules(), items, x), next_family(family, x)),
{
    lemma_calculator_rules();
    let rules = calculator_rules();
    let kernel = kernel_of(rules, items, x);
    let witness = choose|k: LrItem| kernel.contains(k);
    assert(allowed(family, retreated(witness)));
    assert forall|item: LrItem| kernel.contains(item) implies #[trigger] allowed(
        next_family(family, x),
        item,
    ) by {
        assert(allowed(family, retreated(item)));
    }
}

/// Every state of the canonical collection of the calculator's rules holds
/// the items of one family only.
pub proof fn lemma_state_family(states: Seq<Set<LrItem>>, k: int) -> (family: int)
    requires
        canonical(calculator_rules(), states),
        0 <= k < states.len(),
    ensures
        of_family(states[k], family),
    decreases k,
{
    let rules = calculator_rules();
    if k == 0 {
        lemma_calculator_rules();
        assert forall|item: LrItem| set![initial_item()].contains(item) implies #[trigger] allowed(
            0,
            item,
        ) by {}
        lemma_family_closure(0, set![initial_item()]);
        0
    } else {
        assert(discovered(rules, states, k));
        let (s, y) = choose|s: int, y: int| #[trigger] discovers(rules, states, s, y, k);
        let before = lemma_state_family(states, s);
        let x = Symbol::at_ordinal(y);
        lemma_family_kernel(before, states[s], x);
        let family = next_family(before, x);
        lemma_family_closure(family, kernel_of(rules, states[s], x));
        family
    }
}

/// Items of one family have no conflict.
pub proof fn lemma_family_clear(family: int, items: Set<LrItem>, t: TokenType)
    requires
        of_family(items, family),
    ensures
        cell_clear(calculator_rules(), items, t),
{
    lemma_calculator_rules();
    let rules = calculator_rules();
    assert forall|qa: int, qb: int|
        #![trigger reducible(rules, items, qa, t), reducible(rules, items, qb, t)]
        reducible(rules, items, qa, t) && reducible(rules, items, qb, t) implies qa == qb by {
        assert(allowed(family, finished(qa, t)));
        assert(allowed(family, finished(qb, t)));
    }
    if has_edge(rules, items, Symbol::Terminal(t)) {
        let k = choose|k: LrItem| kernel_of(rules, items, Symbol::Terminal(t)).contains(k);
        assert(allowed(family, retreated(k)));
        assert forall|q: int| !#[trigger] reducible(rules, items, q, t) by {
            if reducible(rules, items, q, t) {
                assert(allowed(family, finished(q, t)));
            }
        }
    }
    if t == TokenType::Eof && exists|u: TokenType| #[trigger] acceptable(rules, items, u) {
        let u = choose|u: TokenType| #[trigger] acceptable(rules, items, u);
        assert(allowed(family, LrItem { production_id: 0, dot_position: 1, lookahead: u }));
        assert forall|q: int| !#[trigger] reducible(rules, items, q, t) by {
            if reducible(rules, items, q, t) {
                assert(allowed(family, finished(q, t)));
            }
        }
    }
}

/// The item of a rule of the calculator read to its end.
pub open spec fn finished(q: int, t: TokenType) -> LrItem {
    LrItem {
        production_id: q as usize,
        dot_position: calculator_rules()[q].rhs.len() as usize,
        lookahead: t,
    }
}

/// The canonical collection of the calculator's rules has no conflict.
pub proof fn lemma_calculator_conflict_free(states: Seq<Set<LrItem>>)
    requires
        canonical(calculator_rules(), states),
    ensures
        conflict_free(calculator_rules(), states),
{
    assert forall|s: int, t: TokenType| 0 <= s < states.len() implies #[trigger] cell_clear(
        calculator_rules(),
        states[s],
        t,
    ) by {
        let family = lemma_state_family(states, s);
        lemma_family_clear(family, states[s], t);
    }
}

} // verus!
