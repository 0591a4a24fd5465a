//! Grammar definition for the calculator language
//!
//! This module defines the context-free grammar used by the LR parser, and
//! computes its FIRST and FOLLOW sets. The grammar is designed to handle
//! operator precedence and associativity correctly.

use crate::first_follow::{
    first_of, first_of_seq, follow_of, lemma_first_least, lemma_first_of_rule,
    lemma_first_of_terminal, lemma_follow_least, lemma_follow_of_inner, lemma_follow_of_last,
    lemma_follow_of_start, lemma_total_vacancies_update, total_vacancies,
};
use crate::token::{TerminalSet, TokenType};
use vstd::prelude::*;
use vstd::slice::slice_subrange;

verus! {

/// Non-terminal symbols in the grammar
#[derive(Debug, Clone, Copy, PartialEq, Eq, Hash, Structural)]
pub enum NonTerminal {
    Start,  // S' -> E
    Expr,  // E -> E + T | E - T | T
    Term,  // T -> T * F | T / F | F
    Factor,  // F -> ( E ) | number | - F
}

impl NonTerminal {
    /// Position of the non-terminal in declaration order.
    pub open spec fn ordinal(self) -> int {
        match self {
            NonTerminal::Start => 0,
            NonTerminal::Expr => 1,
            NonTerminal::Term => 2,
            NonTerminal::Factor => 3,
        }
    }

    /// The non-terminal at a position of the declaration order.
    pub open spec fn at_ordinal(i: int) -> NonTerminal {
        if i == 0 {
            NonTerminal::Start
        } else if i == 1 {
            NonTerminal::Expr
        } else if i == 2 {
            NonTerminal::Term
        } else {
            NonTerminal::Factor
        }
    }

    /// The position as a machine number.
    pub fn index(self) -> (i: usize)
        ensures
            i == self.ordinal(),
            i < 4,
    {
        match self {
            NonTerminal::Start => 0,
            NonTerminal::Expr => 1,
            NonTerminal::Term => 2,
            NonTerminal::Factor => 3,
        }
    }

    /// The non-terminal at a position.
    pub fn from_index(i: usize) -> (n: NonTerminal)
        requires
            i < 4,
        ensures
            n == NonTerminal::at_ordinal(i as int),
            n.ordinal() == i,
    {
        if i == 0 {
            NonTerminal::Start
        } else if i == 1 {
            NonTerminal::Expr
        } else if i == 2 {
            NonTerminal::Term
        } else {
            NonTerminal::Factor
        }
    }

    /// The letter that stands for the non-terminal in listings.
    pub open spec fn spec_name(self) -> Seq<char> {
        match self {
            NonTerminal::Start => "S'"@,
            NonTerminal::Expr => "E"@,
            NonTerminal::Term => "T"@,
            NonTerminal::Factor => "F"@,
        }
    }

    /// The name as listings show it.
    pub fn name(&self) -> (s: &'static str)
        ensures
            s@ == self.spec_name(),
    {
        match self {
            NonTerminal::Start => "S'",
            NonTerminal::Expr => "E",
            NonTerminal::Term => "T",
            NonTerminal::Factor => "F",
        }
    }
}

/// Symbol in the grammar (either terminal or non-terminal)
#[derive(Debug, Clone, Copy, PartialEq, Eq, Hash, Structural)]
pub enum Symbol {
    Terminal(TokenType),
    NonTerminal(NonTerminal),
}

impl Symbol {
    /// Position of the symbol when the terminals are listed before the
    /// non-terminals, each group in declaration order.
    pub open spec fn ordinal(self) -> int {
        match self {
            Symbol::Terminal(t) => t.ordinal(),
            Symbol::NonTerminal(n) => 8 + n.ordinal(),
        }
    }

    /// The symbol at a position.
    pub open spec fn at_ordinal(i: int) -> Symbol {
        if i < 8 {
            Symbol::Terminal(TokenType::at_ordinal(i))
        } else {
            Symbol::NonTerminal(NonTerminal::at_ordinal(i - 8))
        }
    }

    /// `ordinal` and `at_ordinal` are inverse to each other.
    pub proof fn lemma_ordinal_bijective()
        ensures
            forall|s: Symbol| 0 <= #[trigger] s.ordinal() < 12,
            forall|s: Symbol| Symbol::at_ordinal(#[trigger] s.ordinal()) == s,
            forall|i: int| 0 <= i < 12 ==> (#[trigger] Symbol::at_ordinal(i)).ordinal() == i,
    {
    }

    /// The position as a machine number.
    pub fn index(self) -> (i: usize)
        ensures
            i == self.ordinal(),
            i < 12,
    {
        match self {
            Symbol::Terminal(t) => t.index(),
            Symbol::NonTerminal(n) => 8 + n.index(),
        }
    }

    /// The symbol at a position.
    pub fn from_index(i: usize) -> (s: Symbol)
        requires
            i < 12,
        ensures
            s == Symbol::at_ordinal(i as int),
            s.ordinal() == i,
    {
        if i < 8 {
            Symbol::Terminal(TokenType::from_index(i))
        } else {
            Symbol::NonTerminal(NonTerminal::from_index(i - 8))
        }
    }

    /// The name of the symbol as listings show it.
    pub open spec fn spec_name(self) -> Seq<char> {
        match self {
            Symbol::Terminal(t) => t.spec_name(),
            Symbol::NonTerminal(n) => n.spec_name(),
        }
    }

    /// The name as listings show it.
    pub fn name(&self) -> (s: &'static str)
        ensures
            s@ == self.spec_name(),
    {
        match self {
            Symbol::Terminal(t) => t.name(),
            Symbol::NonTerminal(n) => n.name(),
        }
    }
}

/// A production rule as a mathematical value.
pub struct Rule {
    pub id: usize,
    pub lhs: NonTerminal,
    pub rhs: Seq<Symbol>,
}

/// A production rule in the grammar
#[derive(Debug, Clone, PartialEq, Eq, Hash)]
pub struct Production {
    pub id: usize,
    pub lhs: NonTerminal,
    pub rhs: Vec<Symbol>,
}

impl View for Production {
    type V = Rule;

    open spec fn view(&self) -> Rule {
        Rule { id: self.id, lhs: self.lhs, rhs: self.rhs@ }
    }
}

/// The rules that a list of productions stands for.
pub open spec fn rules_of(productions: Seq<Production>) -> Seq<Rule> {
    Seq::new(productions.len(), |i: int| productions[i]@)
}

/// The rules of the calculator language, in the order of their ids.
#[verifier::opaque]
pub open spec fn calculator_rules() -> Seq<Rule> {
    seq![
        Rule { id: 0, lhs: NonTerminal::Start, rhs: seq![Symbol::NonTerminal(NonTerminal::Expr)] },
        Rule {
            id: 1,
            lhs: NonTerminal::Expr,
            rhs: seq![
                Symbol::NonTerminal(NonTerminal::Expr),
                Symbol::Terminal(TokenType::Plus),
                Symbol::NonTerminal(NonTerminal::Term),
            ],
        },
        Rule {
            id: 2,
            lhs: NonTerminal::Expr,
            rhs: seq![
                Symbol::NonTerminal(NonTerminal::Expr),
                Symbol::Terminal(TokenType::Minus),
                Symbol::NonTerminal(NonTerminal::Term),
            ],
        },
        Rule { id: 3, lhs: NonTerminal::Expr, rhs: seq![Symbol::NonTerminal(NonTerminal::Term)] },
        Rule {
            id: 4,
            lhs: NonTerminal::Term,
            rhs: seq![
                Symbol::NonTerminal(NonTerminal::Term),
                Symbol::Terminal(TokenType::Star),
                Symbol::NonTerminal(NonTerminal::Factor),
            ],
        },
        Rule {
            id: 5,
            lhs: NonTerminal::Term,
            rhs: seq![
                Symbol::NonTerminal(NonTerminal::Term),
                Symbol::Terminal(TokenType::Slash),
                Symbol::NonTerminal(NonTerminal::Factor),
            ],
        },
        Rule { id: 6, lhs: NonTerminal::Term, rhs: seq![Symbol::NonTerminal(NonTerminal::Factor)] },
        Rule {
            id: 7,
            lhs: NonTerminal::Factor,
            rhs: seq![
                Symbol::Terminal(TokenType::LeftParen),
                Symbol::NonTerminal(NonTerminal::Expr),
                Symbol::Terminal(TokenType::RightParen),
            ],
        },
        Rule { id: 8, lhs: NonTerminal::Factor, rhs: seq![Symbol::Terminal(TokenType::Number)] },
        Rule {
            id: 9,
            lhs: NonTerminal::Factor,
            rhs: seq![Symbol::Terminal(TokenType::Minus), Symbol::NonTerminal(NonTerminal::Factor)],
        },
    ]
}

/// The rules of the calculator, one by one.
pub proof fn lemma_calculator_rules()
    ensures
        calculator_rules().len() == 10,
        forall|p: int| 0 <= p < 10 ==> (#[trigger] calculator_rules()[p]).id == p,
        calculator_rules()[0].lhs == NonTerminal::Start,
        calculator_rules()[0].rhs == seq![Symbol::NonTerminal(NonTerminal::Expr)],
        calculator_rules()[1].lhs == NonTerminal::Expr,
        calculator_rules()[1].rhs == seq![
            Symbol::NonTerminal(NonTerminal::Expr),
            Symbol::Terminal(TokenType::Plus),
            Symbol::NonTerminal(NonTerminal::Term),
        ],
        calculator_rules()[2].lhs == NonTerminal::Expr,
        calculator_rules()[2].rhs == seq![
            Symbol::NonTerminal(NonTerminal::Expr),
            Symbol::Terminal(TokenType::Minus),
            Symbol::NonTerminal(NonTerminal::Term),
        ],
        calculator_rules()[3].lhs == NonTerminal::Expr,
        calculator_rules()[3].rhs == seq![Symbol::NonTerminal(NonTerminal::Term)],
        calculator_rules()[4].lhs == NonTerminal::Term,
        calculator_rules()[4].rhs == seq![
            Symbol::NonTerminal(NonTerminal::Term),
            Symbol::Terminal(TokenType::Star),
            Symbol::NonTerminal(NonTerminal::Factor),
        ],
        calculator_rules()[5].lhs == NonTerminal::Term,
        calculator_rules()[5].rhs == seq![
            Symbol::NonTerminal(NonTerminal::Term),
            Symbol::Terminal(TokenType::Slash),
            Symbol::NonTerminal(NonTerminal::Factor),
        ],
        calculator_rules()[6].lhs == NonTerminal::Term,
        calculator_rules()[6].rhs == seq![Symbol::NonTerminal(NonTerminal::Factor)],
        calculator_rules()[7].lhs == NonTerminal::Factor,
        calculator_rules()[7].rhs == seq![
            Symbol::Terminal(TokenType::LeftParen),
            Symbol::NonTerminal(NonTerminal::Expr),
            Symbol::Terminal(TokenType::RightParen),
        ],
        calculator_rules()[8].lhs == NonTerminal::Factor,
        calculator_rules()[8].rhs == seq![Symbol::Terminal(TokenType::Number)],
        calculator_rules()[9].lhs == NonTerminal::Factor,
        calculator_rules()[9].rhs == seq![
            Symbol::Terminal(TokenType::Minus),
            Symbol::NonTerminal(NonTerminal::Factor),
        ],
{
    reveal(calculator_rules);
}

/// The ids of the rules are their positions, and there is a rule 0, which
/// belongs to the start symbol.
pub open spec fn rules_well_formed(rules: Seq<Rule>, start: NonTerminal) -> bool {
    &&& rules.len() > 0
    &&& forall|i: int| 0 <= i < rules.len() ==> (#[trigger] rules[i]).id == i
    &&& rules[0].lhs == start
}

/// Whether a position of a rule meets the two rules of FOLLOW in a family of
/// sets: a non-terminal there has FIRST of the symbol behind it, or, as the
/// last symbol, what the rule's left-hand side has.
pub open spec fn follow_closed_at(rules: Seq<Rule>, sets: Seq<TerminalSet>, i: int,
    k: int) -> bool {
    rules[i].rhs[k] is NonTerminal ==> {
        let a = rules[i].rhs[k]->NonTerminal_0;
        &&& k + 1 < rules[i].rhs.len() ==> first_of(rules, rules[i].rhs[k + 1]).subset_of(
            sets[a.ordinal()]@,
        )
        &&& k + 1 == rules[i].rhs.len() ==> sets[rules[i].lhs.ordinal()]@.subset_of(
            sets[a.ordinal()]@,
        )
    }
}

/// Whether a rule meets the rule of FIRST in a family of sets: its left-hand
/// side has what its leading symbol has.
pub open spec fn first_closed_at(rules: Seq<Rule>, sets: Seq<TerminalSet>, i: int) -> bool {
    rules[i].rhs.len() > 0 ==> sets[rules[i].rhs[0].ordinal()]@.subset_of(
        sets[8 + rules[i].lhs.ordinal()]@,
    )
}

/// The complete grammar for the calculator
pub struct Grammar {
    pub productions: Vec<Production>,
    pub start_symbol: NonTerminal,
    /// FIRST of each symbol, at the symbol's ordinal.
    pub first_sets: Vec<TerminalSet>,
    /// FOLLOW of each non-terminal, at the non-terminal's ordinal.
    pub follow_sets: Vec<TerminalSet>,
}

impl Grammar {
    /// The rules of the grammar.
    pub open spec fn rules(&self) -> Seq<Rule> {
        rules_of(self.productions@)
    }

    /// The stored FIRST sets are those of the rules.
    pub open spec fn first_sets_computed(&self) -> bool {
        &&& self.first_sets.len() == 12
        &&& forall|i: int|
            0 <= i < 12 ==> (#[trigger] self.first_sets[i])@ == first_of(
                self.rules(),
                Symbol::at_ordinal(i),
            )
    }

    /// The stored FOLLOW sets are those of the rules.
    pub open spec fn follow_sets_computed(&self) -> bool {
        &&& self.follow_sets.len() == 4
        &&& forall|i: int|
            0 <= i < 4 ==> (#[trigger] self.follow_sets[i])@ == follow_of(
                self.rules(),
                self.start_symbol,
                NonTerminal::at_ordinal(i),
            )
    }

    /// The grammar is usable: its rules are well formed and its FIRST and
    /// FOLLOW sets are those of its rules.
    pub open spec fn wf(&self) -> bool {
        &&& rules_well_formed(self.rules(), self.start_symbol)
        &&& self.first_sets_computed()
        &&& self.follow_sets_computed()
    }

    /// Two usable grammars with the same rules and start symbol hold the
    /// same FIRST and FOLLOW sets.
    pub proof fn lemma_sets_determined(&self, other: &Grammar)
        requires
            self.first_sets_computed(),
            self.follow_sets_computed(),
            other.first_sets_computed(),
            other.follow_sets_computed(),
            self.rules() == other.rules(),
            self.start_symbol == other.start_symbol,
        ensures
            self.first_sets@ == other.first_sets@,
            self.follow_sets@ == other.follow_sets@,
    {
        assert forall|i: int| 0 <= i < 12 implies self.first_sets@[i] == other.first_sets@[i] by {
            assert(self.first_sets[i]@ == other.first_sets[i]@);
            self.first_sets[i].lemma_extensional(&other.first_sets[i]);
        }
        assert(self.first_sets@ =~= other.first_sets@);
        assert forall|i: int| 0 <= i < 4 implies self.follow_sets@[i] == other.follow_sets@[i] by {
            assert(self.follow_sets[i]@ == other.follow_sets[i]@);
            self.follow_sets[i].lemma_extensional(&other.follow_sets[i]);
        }
        assert(self.follow_sets@ =~= other.follow_sets@);
    }

    /// Create the calculator grammar
    pub fn new() -> (grammar: Grammar)
        ensures
            grammar.wf(),
            grammar.rules() == calculator_rules(),
            grammar.start_symbol == NonTerminal::Start,
    {
        let productions = vec![
            // 0: S' -> E
            Production {
                id: 0,
                lhs: NonTerminal::Start,
                rhs: vec![Symbol::NonTerminal(NonTerminal::Expr)],
            },
            // 1: E -> E + T
            Production {
                id: 1,
                lhs: NonTerminal::Expr,
                rhs: vec![
                    Symbol::NonTerminal(NonTerminal::Expr),
                    Symbol::Terminal(TokenType::Plus),
                    Symbol::NonTerminal(NonTerminal::Term),
                ],
            },
            // 2: E -> E - T
            Production {
                id: 2,
                lhs: NonTerminal::Expr,
                rhs: vec![
                    Symbol::NonTerminal(NonTerminal::Expr),
                    Symbol::Terminal(TokenType::Minus),
                    Symbol::NonTerminal(NonTerminal::Term),
                ],
            },
            // 3: E -> T
            Production {
                id: 3,
                lhs: NonTerminal::Expr,
                rhs: vec![Symbol::NonTerminal(NonTerminal::Term)],
            },
            // 4: T -> T * F
            Production {
                id: 4,
                lhs: NonTerminal::Term,
                rhs: vec![
                    Symbol::NonTerminal(NonTerminal::Term),
                    Symbol::Terminal(TokenType::Star),
                    Symbol::NonTerminal(NonTerminal::Factor),
                ],
            },
            // 5: T -> T / F
            Production {
                id: 5,
                lhs: NonTerminal::Term,
                rhs: vec![
                    Symbol::NonTerminal(NonTerminal::Term),
                    Symbol::Terminal(TokenType::Slash),
                    Symbol::NonTerminal(NonTerminal::Factor),
                ],
            },
            // 6: T -> F
            Production {
                id: 6,
                lhs: NonTerminal::Term,
                rhs: vec![Symbol::NonTerminal(NonTerminal::Factor)],
            },
            // 7: F -> ( E )
            Production {
                id: 7,
                lhs: NonTerminal::Factor,
                rhs: vec![
                    Symbol::Terminal(TokenType::LeftParen),
                    Symbol::NonTerminal(NonTerminal::Expr),
                    Symbol::Terminal(TokenType::RightParen),
                ],
            },
            // 8: F -> number
            Production {
                id: 8,
                lhs: NonTerminal::Factor,
                rhs: vec![Symbol::Terminal(TokenType::Number)],
            },
            // 9: F -> - F
            Production {
                id: 9,
                lhs: NonTerminal::Factor,
                rhs: vec![
                    Symbol::Terminal(TokenType::Minus),
                    Symbol::NonTerminal(NonTerminal::Factor),
                ],
            },
        ];

        let mut grammar = Grammar {
            productions,
            start_symbol: NonTerminal::Start,
            first_sets: Vec::new(),
            follow_sets: Vec::new(),
        };
        proof {
            reveal(calculator_rules);
            let rules = grammar.rules();
            let expected = calculator_rules();
            assert(rules.len() == 10);
            assert forall|i: int| 0 <= i < 10 implies rules[i] == expected[i] by {
                assert(rules[i].rhs =~= expected[i].rhs);
            }
            assert(rules =~= expected);
        }

        grammar.compute_first_sets();
        grammar.compute_follow_sets();

        grammar
    }

    /// Get all productions for a given non-terminal
    pub fn productions_for(&self, non_terminal: NonTerminal) -> (found: Vec<&Production>)
        ensures
            found@.map_values(|p: &Production| *p) == self.productions@.filter(
                |p: Production| p.lhs == non_terminal,
            ),
    {
        let mut found: Vec<&Production> = Vec::new();
        let ghost pred = |p: Production| p.lhs == non_terminal;
        let mut i: usize = 0;
        proof {
            reveal(Seq::filter);
            assert(self.productions@.take(0) =~= Seq::<Production>::empty());
            assert(found@.map_values(|p: &Production| *p) =~= Seq::<Production>::empty());
        }
        while i < self.productions.len()
            invariant
                i <= self.productions.len(),
                pred == (|p: Production| p.lhs == non_terminal),
                found@.map_values(|p: &Production| *p) == self.productions@.take(i as int).filter(
                    pred,
                ),
            decreases self.productions.len() - i,
        {
            let ghost before = found@;
            let p = &self.productions[i];
            if p.lhs == non_terminal {
                found.push(p);
            }
            proof {
                reveal(Seq::filter);
                let next = self.productions@.take(i + 1);
                assert(next.drop_last() =~= self.productions@.take(i as int));
                assert(next.last() == self.productions@[i as int]);
                if p.lhs == non_terminal {
                    assert(found@.map_values(|p: &Production| *p) =~= before.map_values(
                        |p: &Production| *p,
                    ).push(*p));
                }
            }
            i += 1;
        }
        assert(self.productions@.take(i as int) =~= self.productions@);
        found
    }

    /// Compute FIRST sets for all symbols
    pub fn compute_first_sets(&mut self)
        ensures
            final(self).productions == old(self).productions,
            final(self).start_symbol == old(self).start_symbol,
            final(self).follow_sets == old(self).follow_sets,
            final(self).first_sets_computed(),
    {
        let ghost rules = self.rules();
        let mut sets: Vec<TerminalSet> = Vec::new();

        // Initialize FIRST sets for terminals, and empty FIRST sets for non-terminals
        let mut s: usize = 0;
        while s < 12
            invariant
                s <= 12,
                sets.len() == s,
                forall|i: int| 0 <= i < s && i < 8 ==>
                    (#[trigger] sets[i])@ == set![TokenType::at_ordinal(i)],
                forall|i: int| 8 <= i < s ==> (#[trigger] sets[i])@ == Set::<TokenType>::empty(),
            decreases 12 - s,
        {
            if s < 8 {
                sets.push(TerminalSet::singleton(TokenType::from_index(s)));
            } else {
                sets.push(TerminalSet::new());
            }
            s += 1;
        }
        proof {
            assert forall|i: int| 0 <= i < 12 implies (#[trigger] sets[i])@.subset_of(
                first_of(rules, Symbol::at_ordinal(i)),
            ) by {
                if i < 8 {
                    lemma_first_of_terminal(rules, TokenType::at_ordinal(i));
                }
            }
            assert forall|u: TokenType| (#[trigger] sets[u.ordinal()])@.contains(u) by {
                assert(TokenType::at_ordinal(u.ordinal()) == u);
            }
        }

        // Iteratively compute FIRST sets
        let mut changed = true;
        while changed
            invariant
                rules == self.rules(),
                self.productions == old(self).productions,
                self.start_symbol == old(self).start_symbol,
                self.follow_sets == old(self).follow_sets,
                sets.len() == 12,
                forall|i: int| 0 <= i < 12 ==>
                    (#[trigger] sets[i])@.subset_of(first_of(rules, Symbol::at_ordinal(i))),
                forall|u: TokenType| (#[trigger] sets[u.ordinal()])@.contains(u),
                !changed ==> forall|i: int| 0 <= i < rules.len() ==>
                    #[trigger] first_closed_at(rules, sets@, i),
            decreases total_vacancies(sets@), (if changed { 1int } else { 0int }),
        {
            changed = false;
            let ghost start_sets = sets@;

            let mut pi: usize = 0;
            while pi < self.productions.len()
                invariant
                    rules == self.rules(),
                    pi <= self.productions.len(),
                    sets.len() == 12,
                    start_sets.len() == 12,
                    forall|i: int| 0 <= i < 12 ==>
                        (#[trigger] sets[i])@.subset_of(first_of(rules, Symbol::at_ordinal(i))),
                    forall|u: TokenType| (#[trigger] sets[u.ordinal()])@.contains(u),
                    !changed ==> sets@ == start_sets,
                    !changed ==> forall|i: int| 0 <= i < pi ==>
                        #[trigger] first_closed_at(rules, sets@, i),
                    changed ==> total_vacancies(sets@) < total_vacancies(start_sets),
                decreases self.productions.len() - pi,
            {
                let production = &self.productions[pi];
                assert(rules[pi as int] == production@);
                let lhs_index = Symbol::NonTerminal(production.lhs).index();
                let base = sets[lhs_index];
                let mut first_set = base;
                let old_size = first_set.len();

                // Add FIRST(rhs) to FIRST(lhs)
                let mut k: usize = 0;
                while k < production.rhs.len()
                    invariant_except_break
                        k == 0,
                        first_set == base,
                    invariant
                        sets.len() == 12,
                    ensures
                        first_set@ == base@.union(
                            if production.rhs.len() > 0 {
                                sets[production.rhs[0].ordinal()]@
                            } else {
                                Set::<TokenType>::empty()
                            },
                        ),
                        first_set.count() >= base.count(),
                        first_set.count() == base.count() ==> first_set == base,
                        production.rhs.len() == 0 ==> first_set == base,
                    decreases production.rhs.len() - k,
                {
                    let symbol = production.rhs[k];
                    let symbol_first = sets[symbol.index()];
                    first_set.extend(&symbol_first);

                    // If symbol can't derive epsilon, stop
                    if !self.can_derive_epsilon(&symbol) {
                        break ;
                    }
                    k += 1;
                }

                if first_set.len() > old_size {
                    proof {
                        lemma_total_vacancies_update(sets@, lhs_index as int, first_set);
                        lemma_first_of_rule(rules, pi as int);
                        assert(Symbol::at_ordinal(lhs_index as int)
                            == Symbol::NonTerminal(production.lhs));
                        assert(Symbol::at_ordinal(production.rhs[0].ordinal())
                            == production.rhs[0]);
                    }
                    changed = true;
                    sets.set(lhs_index, first_set);
                } else {
                    assert(first_closed_at(rules, sets@, pi as int));
                }
                pi += 1;
            }
        }

        proof {
            assert forall|i: int| 0 <= i < 12 implies (#[trigger] sets[i])@ == first_of(
                rules,
                Symbol::at_ordinal(i),
            ) by {
                let x = Symbol::at_ordinal(i);
                assert forall|t: TokenType| first_of(rules, x).contains(t) implies
                    sets[i]@.contains(
                    t,
                ) by {
                    let n = choose|n: nat| crate::first_follow::leads_within(rules, x,
                        Symbol::Terminal(t), n);
                    assert forall|j: int|
                        0 <= j < rules.len() && (#[trigger] rules[j]).rhs.len() > 0 implies
                            sets@[rules[j].rhs[0].ordinal()]@.subset_of(
                            sets@[8 + rules[j].lhs.ordinal()]@,
                        ) by {
                        assert(first_closed_at(rules, sets@, j));
                    }
                    lemma_first_least(rules, sets@, x, t, n);
                }
                assert(sets[i]@ =~= first_of(rules, x));
            }
        }
        self.first_sets = sets;
    }

    /// Compute FOLLOW sets for all non-terminals
    pub fn compute_follow_sets(&mut self)
        requires
            old(self).first_sets_computed(),
        ensures
            final(self).productions == old(self).productions,
            final(self).start_symbol == old(self).start_symbol,
            final(self).first_sets == old(self).first_sets,
            final(self).follow_sets_computed(),
    {
        let ghost rules = self.rules();
        let ghost start = self.start_symbol;
        let mut sets: Vec<TerminalSet> = Vec::new();

        // Initialize empty FOLLOW sets
        let mut s: usize = 0;
        while s < 4
            invariant
                s <= 4,
                sets.len() == s,
                forall|i: int| 0 <= i < s ==> (#[trigger] sets[i])@ == Set::<TokenType>::empty(),
            decreases 4 - s,
        {
            sets.push(TerminalSet::new());
            s += 1;
        }

        // Add EOF to FOLLOW(start_symbol)
        let start_index = self.start_symbol.index();
        let mut start_set = sets[start_index];
        start_set.insert(TokenType::Eof);
        sets.set(start_index, start_set);
        proof {
            lemma_follow_of_start(rules, start);
            assert forall|i: int| 0 <= i < 4 implies (#[trigger] sets[i])@.subset_of(
                follow_of(rules, start, NonTerminal::at_ordinal(i)),
            ) by {
                if i == start_index {
                    assert(NonTerminal::at_ordinal(i) == start);
                }
            }
        }

        // Iteratively compute FOLLOW sets
        let mut changed = true;
        while changed
            invariant
                rules == self.rules(),
                start == self.start_symbol,
                self.first_sets_computed(),
                self.productions == old(self).productions,
                self.start_symbol == old(self).start_symbol,
                self.first_sets == old(self).first_sets,
                sets.len() == 4,
                forall|i: int| 0 <= i < 4 ==>
                    (#[trigger] sets[i])@.subset_of(follow_of(rules, start,
                        NonTerminal::at_ordinal(i))),
                sets[start.ordinal()]@.contains(TokenType::Eof),
                !changed ==> forall|i: int, k: int|
                    0 <= i < rules.len() && 0 <= k < rules[i].rhs.len() ==>
                        #[trigger] follow_closed_at(rules, sets@, i, k),
            decreases total_vacancies(sets@), (if changed { 1int } else { 0int }),
        {
            changed = false;
            let ghost start_sets = sets@;

            let mut pi: usize = 0;
            while pi < self.productions.len()
                invariant
                    rules == self.rules(),
                    start == self.start_symbol,
                    self.first_sets_computed(),
                    pi <= self.productions.len(),
                    sets.len() == 4,
                    start_sets.len() == 4,
                    forall|i: int| 0 <= i < 4 ==>
                        (#[trigger] sets[i])@.subset_of(follow_of(rules, start,
                            NonTerminal::at_ordinal(i))),
                    sets[start.ordinal()]@.contains(TokenType::Eof),
                    !changed ==> sets@ == start_sets,
                    !changed ==> forall|i: int, k: int|
                        0 <= i < pi && 0 <= k < rules[i].rhs.len() ==>
                            #[trigger] follow_closed_at(rules, sets@, i, k),
                    changed ==> total_vacancies(sets@) < total_vacancies(start_sets),
                decreases self.productions.len() - pi,
            {
                let production = &self.productions[pi];
                assert(rules[pi as int] == production@);
                let n = production.rhs.len();

                let mut i: usize = 0;
                while i < n
                    invariant
                        rules == self.rules(),
                        start == self.start_symbol,
                        self.first_sets_computed(),
                        pi < self.productions.len(),
                        *production == self.productions[pi as int],
                        rules[pi as int] == production@,
                        n == production.rhs.len(),
                        i <= n,
                        sets.len() == 4,
                        start_sets.len() == 4,
                        forall|i: int| 0 <= i < 4 ==>
                            (#[trigger] sets[i])@.subset_of(follow_of(rules, start,
                                NonTerminal::at_ordinal(i))),
                        sets[start.ordinal()]@.contains(TokenType::Eof),
                        !changed ==> sets@ == start_sets,
                        !changed ==> forall|j: int, k: int|
                            0 <= j < pi && 0 <= k < rules[j].rhs.len() ==>
                                #[trigger] follow_closed_at(rules, sets@, j, k),
                        !changed ==> forall|k: int|
                            0 <= k < i ==> #[trigger] follow_closed_at(rules, sets@, pi as int, k),
                        changed ==> total_vacancies(sets@) < total_vacancies(start_sets),
                    decreases n - i,
                {
                    let symbol = production.rhs[i];
                    if let Symbol::NonTerminal(non_terminal) = symbol {
                        let target = non_terminal.index();
                        let base = sets[target];
                        let mut follow_set = base;
                        let old_size = follow_set.len();

                        // Add FIRST(β) to FOLLOW(A) for production X -> αAβ
                        let beta = slice_subrange(production.rhs.as_slice(), i + 1, n);
                        assert(beta@ =~= production.rhs@.subrange(i + 1, n as int));
                        if !beta.is_empty() {
                            let first_beta = self.first_of_sequence(beta);
                            follow_set.extend(&first_beta);
                            proof {
                                lemma_follow_of_inner(rules, start, pi as int, i as int);
                            }
                        }
                        let ghost middle = follow_set;

                        // If β can derive epsilon or β is empty, add FOLLOW(X) to FOLLOW(A)
                        if beta.is_empty() || self.sequence_can_derive_epsilon(beta) {
                            let follow_lhs = sets[production.lhs.index()];
                            follow_set.extend(&follow_lhs);
                            proof {
                                lemma_follow_of_last(rules, start, pi as int);
                                assert(NonTerminal::at_ordinal(production.lhs.ordinal())
                                    == production.lhs);
                            }
                        }
                        proof {
                            assert(NonTerminal::at_ordinal(target as int) == non_terminal);
                            assert(follow_set.count() >= base.count());
                        }

                        if follow_set.len() > old_size {
                            proof {
                                lemma_total_vacancies_update(sets@, target as int, follow_set);
                            }
                            changed = true;
                            sets.set(target, follow_set);
                        } else {
                            proof {
                                assert(middle.count() == base.count());
                                assert(follow_set == base);
                                assert(middle == base);
                                assert(follow_closed_at(rules, sets@, pi as int, i as int));
                            }
                        }
                    } else {
                        assert(follow_closed_at(rules, sets@, pi as int, i as int));
                    }
                    i += 1;
                }
                pi += 1;
            }
        }

        proof {
            assert forall|i: int| 0 <= i < 4 implies (#[trigger] sets[i])@ == follow_of(
                rules,
                start,
                NonTerminal::at_ordinal(i),
            ) by {
                let a = NonTerminal::at_ordinal(i);
                assert forall|t: TokenType| follow_of(rules, start, a).contains(t) implies
                    sets[i]@.contains(
                    t,
                ) by {
                    let n = choose|n: nat| crate::first_follow::follows_within(rules, start, a, t,
                        n);
                    assert forall|j: int, k: int|
                        0 <= j < rules.len() && 0 <= k && k + 1 < rules[j].rhs.len() && (
                        #[trigger] rules[j].rhs[k]) is NonTerminal implies first_of(
                            rules,
                            rules[j].rhs[k + 1],
                        ).subset_of(sets@[rules[j].rhs[k]->NonTerminal_0.ordinal()]@) by {
                        assert(follow_closed_at(rules, sets@, j, k));
                    }
                    assert forall|j: int|
                        0 <= j < rules.len() && (#[trigger] rules[j]).rhs.len() > 0
                            && rules[j].rhs.last() is NonTerminal implies
                                sets@[rules[j].lhs.ordinal()]@.subset_of(
                            sets@[rules[j].rhs.last()->NonTerminal_0.ordinal()]@,
                        ) by {
                        assert(follow_closed_at(rules, sets@, j, rules[j].rhs.len() - 1));
                    }
                    lemma_follow_least(rules, start, sets@, a, t, n);
                }
                assert(sets[i]@ =~= follow_of(rules, start, a));
            }
        }
        self.follow_sets = sets;
    }

    /// Get the FIRST set for a symbol
    pub fn first(&self, symbol: &Symbol) -> (set: &TerminalSet)
        requires
            self.first_sets_computed(),
        ensures
            set@ == first_of(self.rules(), *symbol),
            *symbol matches Symbol::Terminal(t) ==> set@ == set![t],
    {
        let set = &self.first_sets[symbol.index()];
        assert(Symbol::at_ordinal(symbol.ordinal()) == *symbol);
        proof {
            if let Symbol::Terminal(t) = *symbol {
                lemma_first_of_terminal(self.rules(), t);
            }
        }
        set
    }

    /// Get the FOLLOW set for a non-terminal
    pub fn follow(&self, non_terminal: NonTerminal) -> (set: &TerminalSet)
        requires
            self.follow_sets_computed(),
        ensures
            set@ == follow_of(self.rules(), self.start_symbol, non_terminal),
            non_terminal == self.start_symbol ==> set@.contains(TokenType::Eof),
    {
        let set = &self.follow_sets[non_terminal.index()];
        assert(NonTerminal::at_ordinal(non_terminal.ordinal()) == non_terminal);
        proof {
            lemma_follow_of_start(self.rules(), self.start_symbol);
        }
        set
    }

    /// Compute FIRST set for a sequence of symbols
    pub fn first_of_sequence(&self, symbols: &[Symbol]) -> (result: TerminalSet)
        requires
            self.first_sets_computed(),
        ensures
            result@ == first_of_seq(self.rules(), symbols@),
    {
        let mut result = TerminalSet::new();

        let mut i: usize = 0;
        while i < symbols.len()
            invariant_except_break
                i == 0,
                result@ == Set::<TokenType>::empty(),
            invariant
                self.first_sets_computed(),
            ensures
                result@ == first_of_seq(self.rules(), symbols@),
            decreases symbols.len() - i,
        {
            let symbol = symbols[i];
            let symbol_first = self.first(&symbol);
            result.extend(symbol_first);
            assert(result@ =~= first_of(self.rules(), symbol));

            if !self.can_derive_epsilon(&symbol) {
                break ;
            }
            i += 1;
        }

        result
    }

    /// Check if a sequence of symbols can derive epsilon
    pub fn sequence_can_derive_epsilon(&self, symbols: &[Symbol]) -> (nullable: bool)
        ensures
            nullable == (symbols@.len() == 0),
    {
        let mut i: usize = 0;
        while i < symbols.len()
            invariant
                i == 0,
            decreases symbols.len() - i,
        {
            if !self.can_derive_epsilon(&symbols[i]) {
                return false;
            }
            i += 1;
        }
        true
    }

    /// Check if a symbol can derive epsilon (empty string)
    pub fn can_derive_epsilon(&self, _symbol: &Symbol) -> (nullable: bool)
        ensures
            !nullable,
    {
        // Our grammar doesn't have epsilon productions
        false
    }
}

impl Default for Grammar {
    fn default() -> (grammar: Grammar)
        ensures
            grammar.wf(),
            grammar.rules() == calculator_rules(),
            grammar.start_symbol == NonTerminal::Start,
    {
        Grammar::new()
    }
}

} // verus!
