//! LR(1) parsing table construction
//!
//! This module implements the construction of LR(1) parsing tables using
//! the canonical collection of LR(1) items.

use crate::automaton::{
    action_justified, action_justified_before, after_dot, canonical, closure_of, discovers,
    edge_justified, explored, finished_item, has_edge, kernel_of, lemma_action_absent,
    lemma_action_accept, lemma_action_elsewhere, lemma_action_justified_at_end,
    lemma_action_next_rule, lemma_action_reduce, lemma_action_start, lemma_closure_holds_kernel,
    lemma_closure_least, lemma_closure_step, lemma_explored_end, lemma_explored_found,
    lemma_explored_new, lemma_explored_next, lemma_explored_no_edge, lemma_explored_start,
    lookaheads_of, predicts, retreated, target_of,
};
use crate::grammar::{Grammar, NonTerminal, Rule, Symbol};
pub use crate::item_set::{ItemSet, LrItem};
use crate::item_set::{all_codes, item_valid, lemma_all_codes, rule_lengths};
use crate::table::Table;
use crate::token::{TerminalSet, TokenType};
use std::collections::VecDeque;
use vstd::prelude::*;
use vstd::slice::{slice_subrange, slice_to_vec};

verus! {

/// A state in the LR(1) automaton (a set of LR(1) items)
#[derive(Debug, Clone, PartialEq, Eq)]
pub struct LrState {
    pub id: usize,
    pub items: ItemSet,
    pub kernel_items: ItemSet,
}

/// Action in the parsing table
#[derive(Debug, Clone, Copy, PartialEq, Eq, Structural)]
pub enum Action {
    Shift(usize),  // Shift and go to state
    Reduce(usize),  // Reduce by production
    Accept,  // Accept the input
}

/// LR(1) parsing table
pub struct LrTable {
    pub action_table: Table<Action>,
    pub goto_table: Table<usize>,
    pub states: Vec<LrState>,
    pub grammar: Grammar,
}

/// The item sets of the states.
pub open spec fn sets_of(states: Seq<LrState>) -> Seq<Set<LrItem>> {
    Seq::new(states.len(), |k: int| states[k].items@)
}

/// The kernels of the states.
pub open spec fn kernels_of(states: Seq<LrState>) -> Seq<Set<LrItem>> {
    Seq::new(states.len(), |k: int| states[k].kernel_items@)
}

/// The flags of the states' item sets.
pub open spec fn codes_of(states: Seq<LrState>) -> Set<Seq<bool>> {
    Set::new(
        |c: Seq<bool>| exists|k: int| 0 <= k < states.len()
            && #[trigger] states[k].items.code() == c,
    )
}

/// Each state has its position as id, and its item sets are laid out for
/// the rules.
pub open spec fn states_fit(rules: Seq<Rule>, states: Seq<LrState>) -> bool {
    forall|k: int|
        0 <= k < states.len() ==> {
            &&& (#[trigger] states[k]).id == k
            &&& states[k].items.fits(rules)
            &&& states[k].kernel_items.fits(rules)
        }
}

/// The state that a shift leads to.
pub open spec fn shift_of(a: Option<Action>) -> Option<usize> {
    match a {
        Some(Action::Shift(k)) => Some(k),
        _ => None,
    }
}

/// What the two tables record for the edges: for each state one row of
/// twelve, the shifts on the terminals and then the gotos on the
/// non-terminals.
pub open spec fn edges_of(actions: Table<Action>, gotos: Table<usize>) -> Seq<Seq<Option<usize>>> {
    Seq::new(
        actions.height(),
        |s: int|
            Seq::new(
                12,
                |y: int|
                    if y < 8 {
                        shift_of(actions.entry(s, y))
                    } else {
                        gotos.entry(s, y - 8)
                    },
            ),
    )
}

/// The action table holds shifts only.
pub open spec fn shifts_only(actions: Table<Action>) -> bool {
    forall|s: int, c: int|
        #![trigger actions.entry(s, c)]
        actions.entry(s, c) is Some ==> actions.entry(s, c)->Some_0 is Shift
}

/// The tables have one row for each of `n` states, of eight terminals and
/// four non-terminals.
pub open spec fn tables_fit(actions: Table<Action>, gotos: Table<usize>, n: nat) -> bool {
    &&& actions.wf()
    &&& actions.width() == 8
    &&& actions.height() == n
    &&& gotos.wf()
    &&& gotos.width() == 4
    &&& gotos.height() == n
}

/// What `goto_kernel` has gathered once it has come to the place `(p, d, l)`.
pub open spec fn kernel_progress(
    rules: Seq<Rule>,
    items: Set<LrItem>,
    x: Symbol,
    now: Set<LrItem>,
    p: int,
    d: int,
    l: int,
) -> bool {
    &&& forall|k: LrItem|
        #![trigger now.contains(k)]
        now.contains(k) ==> kernel_of(rules, items, x).contains(k) && item_before(
            retreated(k),
            p,
            d,
            l,
        )
    &&& forall|k: LrItem|
        #![trigger kernel_of(rules, items, x).contains(k)]
        kernel_of(rules, items, x).contains(k) && item_before(retreated(k), p, d, l)
            ==> now.contains(k)
}

/// What `predict` has done once it has come to the place `(q, 0, l)`: the set
/// holds what it held, and of what `item` brings in the items before that
/// place.
pub open spec fn predict_progress(
    rules: Seq<Rule>,
    item: LrItem,
    before: Set<LrItem>,
    now: Set<LrItem>,
    q: int,
    l: int,
) -> bool {
    &&& forall|b: LrItem|
        #![trigger now.contains(b)]
        now.contains(b) ==> before.contains(b) || (predicts(rules, item, b) && item_before(
            b,
            q,
            0,
            l,
        ))
    &&& before.subset_of(now)
    &&& forall|b: LrItem|
        #![trigger predicts(rules, item, b)]
        predicts(rules, item, b) && item_before(b, q, 0, l) ==> now.contains(b)
}

/// The item comes before the place `(p, d, l)` when items are listed by
/// rule, then dot position, then lookahead.
pub open spec fn item_before(item: LrItem, p: int, d: int, l: int) -> bool {
    ||| item.production_id < p
    ||| (item.production_id == p && item.dot_position < d)
    ||| (item.production_id == p && item.dot_position == d && item.lookahead.ordinal() < l)
}

impl LrTable {
    /// Construct an LR(1) parsing table for the given grammar
    pub fn new(grammar: Grammar) -> (table: LrTable)
        requires
            grammar.wf(),
        ensures
            table.grammar == grammar,
            table.wf(),
    {
        let mut table = LrTable {
            action_table: Table::new(8),
            goto_table: Table::new(4),
            states: Vec::new(),
            grammar,
        };

        table.construct_states();
        table.construct_tables();

        table
    }

    /// The rules of the table's grammar.
    pub open spec fn rules(&self) -> Seq<Rule> {
        self.grammar.rules()
    }

    /// The item sets of the states.
    pub open spec fn state_sets(&self) -> Seq<Set<LrItem>> {
        sets_of(self.states@)
    }

    /// What the action table holds for a state and a terminal.
    pub open spec fn action_entry(&self, state: int, terminal: TokenType) -> Option<Action> {
        self.action_table.entry(state, terminal.ordinal())
    }

    /// What the goto table holds for a state and a non-terminal.
    pub open spec fn goto_entry(&self, state: int, non_terminal: NonTerminal) -> Option<usize> {
        self.goto_table.entry(state, non_terminal.ordinal())
    }

    /// The kernel of each state is the one that it was made from: the initial
    /// item for the first state, and for another the kernel that the edge
    /// which discovers it gives.
    pub open spec fn kernels_justified(&self) -> bool {
        &&& self.states[0].kernel_items@ == set![crate::automaton::initial_item()]
        &&& forall|k: int|
            1 <= k < self.states.len() ==> #[trigger] crate::automaton::discovered_before(
                self.rules(),
                self.state_sets(),
                kernels_of(self.states@),
                k,
                self.states.len() as int,
                0,
            )
    }

    /// The table is the LR(1) table of its grammar: the states are the
    /// canonical collection, in the order of their discovery, and the action
    /// and goto tables hold what follows from them.
    pub open spec fn wf(&self) -> bool {
        &&& self.grammar.wf()
        &&& states_fit(self.rules(), self.states@)
        &&& tables_fit(self.action_table, self.goto_table, self.states.len() as nat)
        &&& canonical(self.rules(), self.state_sets())
        &&& self.kernels_justified()
        &&& forall|s: int, t: TokenType|
            0 <= s < self.states.len() ==> action_justified(
                self.rules(),
                self.state_sets(),
                s,
                t,
                #[trigger] self.action_entry(s, t),
            )
        &&& forall|s: int, n: NonTerminal|
            0 <= s < self.states.len() ==> edge_justified(
                self.rules(),
                self.state_sets(),
                s,
                Symbol::NonTerminal(n),
                #[trigger] self.goto_entry(s, n),
            )
    }

    /// The states are the canonical collection of the grammar's rules, and
    /// the tables hold its edges: a shift for an edge on a terminal, a goto
    /// for an edge on a non-terminal.
    pub open spec fn automaton_built(&self) -> bool {
        &&& self.grammar.wf()
        &&& states_fit(self.grammar.rules(), self.states@)
        &&& tables_fit(self.action_table, self.goto_table, self.states.len() as nat)
        &&& shifts_only(self.action_table)
        &&& explored(
            self.grammar.rules(),
            sets_of(self.states@),
            kernels_of(self.states@),
            edges_of(self.action_table, self.goto_table),
            self.states.len() as int,
            0,
        )
    }

    /// Construct the canonical collection of LR(1) states
    pub fn construct_states(&mut self)
        requires
            old(self).grammar.wf(),
            old(self).states.len() == 0,
            tables_fit(old(self).action_table, old(self).goto_table, 0),
        ensures
            final(self).grammar == old(self).grammar,
            final(self).automaton_built(),
    {
        let ghost rules = self.grammar.rules();
        let ghost n_codes = ItemSet::code_len(rule_lengths(rules));

        // Create initial state with augmented start production
        let initial_item = LrItem {
            production_id: 0,  // S' -> E
            dot_position: 0,
            lookahead: TokenType::Eof,
        };
        let mut initial_kernel = ItemSet::new(&self.grammar.productions);
        proof {
            initial_kernel.lemma_fits(rules);
        }
        initial_kernel.insert(initial_item);
        assert(initial_kernel@ =~= set![crate::automaton::initial_item()]);

        let initial_state = self.closure(initial_kernel.duplicate());
        let mut states: Vec<LrState> = Vec::new();
        states.push(LrState { id: 0, kernel_items: initial_kernel, items: initial_state });
        proof {
            assert(shifts_only(self.action_table));
        }
        self.add_rows();

        // Queue of states to process
        let mut queue: VecDeque<usize> = VecDeque::new();
        queue.push_back(0);

        proof {
            let edges = edges_of(self.action_table, self.goto_table);
            assert(sets_of(states@) =~= seq![states[0].items@]);
            assert(kernels_of(states@) =~= seq![set![crate::automaton::initial_item()]]);
            assert(edges =~= seq![edges[0]]);
            lemma_explored_start(rules, states[0].items@, edges[0]);
            lemma_all_codes(n_codes);
        }

        loop
            invariant
                rules == self.grammar.rules(),
                n_codes == ItemSet::code_len(rule_lengths(rules)),
                self.grammar.wf(),
                self.grammar == old(self).grammar,
                states_fit(rules, states@),
                tables_fit(self.action_table, self.goto_table, states.len() as nat),
                shifts_only(self.action_table),
                queue@.len() <= states.len(),
                forall|i: int|
                    0 <= i < queue@.len() ==>
                        #[trigger] queue@[i] == states.len() - queue@.len() + i,
                explored(
                    rules,
                    sets_of(states@),
                    kernels_of(states@),
                    edges_of(self.action_table, self.goto_table),
                    states.len() - queue@.len(),
                    0,
                ),
                all_codes(n_codes).finite(),
            ensures
                queue@.len() == 0,
            decreases all_codes(n_codes).difference(codes_of(states@)).len() + queue@.len(),
        {
            let ghost measure = all_codes(n_codes).difference(codes_of(states@)).len() + queue@.len();
            let ghost cur = states.len() - queue@.len();
            let front = queue.pop_front();
            if front.is_none() {
                break ;
            }
            let current_state_id = front.unwrap();
            assert(current_state_id == cur);
            let current_items = states[current_state_id].items.duplicate();

            // Follow the transition on each symbol after a dot
            let mut x: usize = 0;
            while x < 12
                invariant
                    rules == self.grammar.rules(),
                    n_codes == ItemSet::code_len(rule_lengths(rules)),
                    self.grammar.wf(),
                    self.grammar == old(self).grammar,
                    states_fit(rules, states@),
                    tables_fit(self.action_table, self.goto_table, states.len() as nat),
                    shifts_only(self.action_table),
                    x <= 12,
                    current_state_id == cur,
                    cur < states.len(),
                    current_items.fits(rules),
                    current_items@ == states[cur as int].items@,
                    states.len() - queue@.len() == cur + 1,
                    forall|i: int| 0 <= i < queue@.len() ==> #[trigger] queue@[i] == cur + 1 + i,
                    explored(
                        rules,
                        sets_of(states@),
                        kernels_of(states@),
                        edges_of(self.action_table, self.goto_table),
                        cur,
                        x as int,
                    ),
                    all_codes(n_codes).finite(),
                    all_codes(n_codes).difference(codes_of(states@)).len() + queue@.len() < measure,
                decreases 12 - x,
            {
                let symbol = Symbol::from_index(x);
                let kernel = self.goto_kernel(&current_items, symbol);
                let ghost sets = sets_of(states@);
                let ghost kernels = kernels_of(states@);
                let ghost edges = edges_of(self.action_table, self.goto_table);
                assert(sets[cur] == current_items@);

                if !kernel.is_empty() {
                    proof {
                        // A kernel that is not empty holds an item.
                        if !has_edge(rules, sets[cur], symbol) {
                            assert(kernel@ =~= Set::<LrItem>::empty());
                        }
                    }
                    let new_state_items = self.closure(kernel.duplicate());
                    assert(new_state_items@ == target_of(rules, sets[cur], symbol));

                    // Check if this state already exists
                    let existing_state = LrTable::find_state(&states, &new_state_items);

                    if let Some(existing_id) = existing_state {
                        // State already exists
                        self.add_transition(current_state_id, symbol, existing_id);
                        proof {
                            assert(sets[existing_id as int] == new_state_items@);
                            lemma_explored_found(
                                rules,
                                sets,
                                kernels,
                                edges,
                                cur,
                                x as int,
                                existing_id,
                                edges_of(self.action_table, self.goto_table),
                            );
                        }
                    } else {
                        // Create new state
                        let state_id = states.len();
                        let new_state = LrState {
                            id: state_id,
                            kernel_items: kernel,
                            items: new_state_items,
                        };
                        proof {
                            let code = new_state.items.code();
                            new_state.items.lemma_code_len();
                            lemma_all_codes(n_codes);
                            assert(code.len() == n_codes);
                            assert(all_codes(n_codes).contains(code));
                            if codes_of(states@).contains(code) {
                                let k = choose|k: int|
                                    0 <= k < states.len()
                                        && #[trigger] states[k].items.code() == code;
                                states[k].items.lemma_code_decides(&new_state.items);
                                assert(false);
                            }
                            assert(codes_of(states@.push(new_state)) =~= codes_of(states@).insert(code))
                                by {
                                let longer = states@.push(new_state);
                                assert forall|c: Seq<bool>|
                                    codes_of(longer).contains(c) == codes_of(states@).insert(
                                        code,
                                    ).contains(c) by {
                                    if codes_of(longer).contains(c) {
                                        let k = choose|k: int|
                                            0 <= k < longer.len()
                                                && #[trigger] longer[k].items.code()
                                                == c;
                                        if k < states.len() {
                                            assert(states[k].items.code() == c);
                                        }
                                    }
                                    if codes_of(states@).contains(c) {
                                        let k = choose|k: int|
                                            0 <= k < states.len()
                                                && #[trigger] states[k].items.code()
                                                == c;
                                        assert(longer[k].items.code() == c);
                                    }
                                    if c == code {
                                        assert(longer[states.len() as int].items.code() == c);
                                    }
                                }
                            }
                            all_codes(n_codes).lemma_set_insert_diff_decreases(codes_of(states@),
                                code);
                            assert forall|k: int| 0 <= k < sets.len() implies #[trigger] sets[k]
                                != target_of(rules, sets[cur], symbol) by {
                                assert(states[k].items@ != new_state.items@);
                            }
                        }

                        states.push(new_state);
                        self.add_rows();
                        queue.push_back(state_id);

                        self.add_transition(current_state_id, symbol, state_id);
                        proof {
                            let after = edges_of(self.action_table, self.goto_table);
                            lemma_explored_new(rules, sets, kernels, edges, cur, x as int, after);
                            assert(sets_of(states@) =~= sets.push(
                                target_of(rules, sets[cur], symbol),
                            ));
                            assert(kernels_of(states@) =~= kernels.push(
                                kernel_of(rules, sets[cur], symbol),
                            ));
                        }
                    }
                } else {
                    proof {
                        if has_edge(rules, sets[cur], symbol) {
                            let k = choose|k: LrItem| kernel_of(rules, sets[cur],
                                symbol).contains(k);
                            assert(kernel@.contains(k));
                        }
                        lemma_explored_no_edge(rules, sets, kernels, edges, cur, x as int);
                    }
                }
                x += 1;
            }
            proof {
                lemma_explored_next(
                    rules,
                    sets_of(states@),
                    kernels_of(states@),
                    edges_of(self.action_table, self.goto_table),
                    cur,
                );
            }
        }

        self.states = states;
    }

    /// Construct the action and goto tables from the states
    pub fn construct_tables(&mut self)
        requires
            old(self).automaton_built(),
        ensures
            final(self).grammar == old(self).grammar,
            final(self).states == old(self).states,
            final(self).goto_table == old(self).goto_table,
            final(self).wf(),
    {
        let ghost rules = self.grammar.rules();
        let ghost sets = sets_of(self.states@);
        let ghost last = rules.len() as int;
        proof {
            let edges = edges_of(self.action_table, self.goto_table);
            lemma_explored_end(rules, sets, kernels_of(self.states@), edges);
            assert forall|s: int, t: TokenType| 0 <= s < self.states.len() implies
                action_justified_before(
                rules,
                sets,
                s,
                t,
                #[trigger] self.action_entry(s, t),
                0,
                0,
            ) by {
                let a = self.action_entry(s, t);
                assert(edges[s][t.ordinal()] == shift_of(a));
                assert(Symbol::at_ordinal(t.ordinal()) == Symbol::Terminal(t));
                lemma_action_start(rules, sets, s, t, a, shift_of(a));
            }
            assert forall|s: int, n: NonTerminal| 0 <= s < self.states.len() implies edge_justified(
                rules,
                sets,
                s,
                Symbol::NonTerminal(n),
                #[trigger] self.goto_entry(s, n),
            ) by {
                assert(edges[s][8 + n.ordinal()] == self.goto_entry(s, n));
                assert(Symbol::at_ordinal(8 + n.ordinal()) == Symbol::NonTerminal(n));
            }
        }

        let mut si: usize = 0;
        while si < self.states.len()
            invariant
                rules == self.grammar.rules(),
                sets == sets_of(self.states@),
                last == rules.len(),
                self.grammar == old(self).grammar,
                self.states == old(self).states,
                self.goto_table == old(self).goto_table,
                self.grammar.wf(),
                states_fit(rules, self.states@),
                tables_fit(self.action_table, self.goto_table, self.states.len() as nat),
                canonical(rules, sets),
                self.kernels_justified(),
                forall|s: int, n: NonTerminal|
                    0 <= s < self.states.len() ==> edge_justified(
                        rules,
                        sets,
                        s,
                        Symbol::NonTerminal(n),
                        #[trigger] self.goto_entry(s, n),
                    ),
                si <= self.states.len(),
                forall|s: int, t: TokenType|
                    0 <= s < si ==> action_justified_before(
                        rules,
                        sets,
                        s,
                        t,
                        #[trigger] self.action_entry(s, t),
                        last,
                        0,
                    ),
                forall|s: int, t: TokenType|
                    si <= s < self.states.len() ==> action_justified_before(
                        rules,
                        sets,
                        s,
                        t,
                        #[trigger] self.action_entry(s, t),
                        0,
                        0,
                    ),
            decreases self.states.len() - si,
        {
            let mut p: usize = 0;
            while p < self.grammar.productions.len()
                invariant
                    rules == self.grammar.rules(),
                    sets == sets_of(self.states@),
                    last == rules.len(),
                    self.grammar == old(self).grammar,
                    self.states == old(self).states,
                    self.goto_table == old(self).goto_table,
                    self.grammar.wf(),
                    states_fit(rules, self.states@),
                    tables_fit(self.action_table, self.goto_table, self.states.len() as nat),
                    canonical(rules, sets),
                    self.kernels_justified(),
                    forall|s: int, n: NonTerminal|
                        0 <= s < self.states.len() ==> edge_justified(
                            rules,
                            sets,
                            s,
                            Symbol::NonTerminal(n),
                            #[trigger] self.goto_entry(s, n),
                        ),
                    si < self.states.len(),
                    p <= self.grammar.productions.len(),
                    forall|s: int, t: TokenType|
                        0 <= s < si ==> action_justified_before(
                            rules,
                            sets,
                            s,
                            t,
                            #[trigger] self.action_entry(s, t),
                            last,
                            0,
                        ),
                    forall|t: TokenType|
                        action_justified_before(
                            rules,
                            sets,
                            si as int,
                            t,
                            #[trigger] self.action_entry(si as int, t),
                            p as int,
                            0,
                        ),
                    forall|s: int, t: TokenType|
                        si < s < self.states.len() ==> action_justified_before(
                            rules,
                            sets,
                            s,
                            t,
                            #[trigger] self.action_entry(s, t),
                            0,
                            0,
                        ),
                decreases self.grammar.productions.len() - p,
            {
                let production_id = self.grammar.productions[p].id;
                let end = self.grammar.productions[p].rhs.len();
                assert(rules[p as int].rhs.len() == end && rules[p as int].id == p);

                let mut l: usize = 0;
                while l < 8
                    invariant
                        rules == self.grammar.rules(),
                        sets == sets_of(self.states@),
                        last == rules.len(),
                        self.grammar == old(self).grammar,
                        self.states == old(self).states,
                        self.goto_table == old(self).goto_table,
                        self.grammar.wf(),
                        states_fit(rules, self.states@),
                        tables_fit(self.action_table, self.goto_table, self.states.len() as nat),
                        canonical(rules, sets),
                        self.kernels_justified(),
                        forall|s: int, n: NonTerminal|
                            0 <= s < self.states.len() ==> edge_justified(
                                rules,
                                sets,
                                s,
                                Symbol::NonTerminal(n),
                                #[trigger] self.goto_entry(s, n),
                            ),
                        si < self.states.len(),
                        p < self.grammar.productions.len(),
                        production_id == p,
                        end == rules[p as int].rhs.len(),
                        l <= 8,
                        forall|s: int, t: TokenType|
                            0 <= s < si ==> action_justified_before(
                                rules,
                                sets,
                                s,
                                t,
                                #[trigger] self.action_entry(s, t),
                                last,
                                0,
                            ),
                        forall|t: TokenType|
                            action_justified_before(
                                rules,
                                sets,
                                si as int,
                                t,
                                #[trigger] self.action_entry(si as int, t),
                                p as int,
                                l as int,
                            ),
                        forall|s: int, t: TokenType|
                            si < s < self.states.len() ==> action_justified_before(
                                rules,
                                sets,
                                s,
                                t,
                                #[trigger] self.action_entry(s, t),
                                0,
                                0,
                            ),
                    decreases 8 - l,
                {
                    let item = LrItem {
                        production_id: p,
                        dot_position: end,
                        lookahead: TokenType::from_index(l),
                    };
                    let ghost prior = *self;
                    assert(item == finished_item(rules, p as int, l as int));
                    assert(sets[si as int] == self.states[si as int].items@);

                    if self.states[si].items.contains(&item) {
                        // Item is complete (dot at end)
                        if production_id == 0 {
                            // Accept item: S' -> E •
                            self.action_table.insert(si, TokenType::Eof.index(), Action::Accept);
                            proof {
                                assert forall|t: TokenType|
                                    action_justified_before(
                                        rules,
                                        sets,
                                        si as int,
                                        t,
                                        #[trigger] self.action_entry(si as int, t),
                                        p as int,
                                        l + 1,
                                    ) by {
                                    let a = prior.action_entry(si as int, t);
                                    if t == TokenType::Eof {
                                        lemma_action_accept(rules, sets, si as int, a, l as int);
                                    } else {
                                        lemma_action_elsewhere(
                                            rules,
                                            sets,
                                            si as int,
                                            t,
                                            a,
                                            p as int,
                                            l as int,
                                        );
                                    }
                                }
                            }
                        } else {
                            // Reduce item
                            self.action_table.insert(
                                si,
                                item.lookahead.index(),
                                Action::Reduce(production_id),
                            );
                            proof {
                                assert forall|t: TokenType|
                                    action_justified_before(
                                        rules,
                                        sets,
                                        si as int,
                                        t,
                                        #[trigger] self.action_entry(si as int, t),
                                        p as int,
                                        l + 1,
                                    ) by {
                                    let a = prior.action_entry(si as int, t);
                                    if t.ordinal() == l {
                                        assert(TokenType::at_ordinal(t.ordinal()) == t);
                                        lemma_action_reduce(rules, sets, si as int, a, p, l as int);
                                    } else {
                                        lemma_action_elsewhere(
                                            rules,
                                            sets,
                                            si as int,
                                            t,
                                            a,
                                            p as int,
                                            l as int,
                                        );
                                    }
                                }
                            }
                        }
                        proof {
                            assert forall|s: int, t: TokenType|
                                0 <= s < self.states.len() && s != si implies
                                    #[trigger] self.action_entry(
                                s,
                                t,
                            ) == prior.action_entry(s, t) by {}
                            assert forall|s: int, n: NonTerminal|
                                0 <= s < self.states.len() implies #[trigger] self.goto_entry(s, n)
                                == prior.goto_entry(s, n) by {}
                            assert(self.states@ == prior.states@);
                            assert(self.rules() == prior.rules());
                            assert(self.state_sets() == prior.state_sets());
                            assert(prior.kernels_justified());
                            assert forall|k: int| 1 <= k < self.states.len() implies
                                #[trigger] crate::automaton::discovered_before(
                                self.rules(),
                                self.state_sets(),
                                kernels_of(self.states@),
                                k,
                                self.states.len() as int,
                                0,
                            ) by {
                                assert(crate::automaton::discovered_before(
                                    prior.rules(),
                                    prior.state_sets(),
                                    kernels_of(prior.states@),
                                    k,
                                    prior.states.len() as int,
                                    0,
                                ));
                            }
                        }
                    } else {
                        proof {
                            assert forall|t: TokenType|
                                action_justified_before(
                                    rules,
                                    sets,
                                    si as int,
                                    t,
                                    #[trigger] self.action_entry(si as int, t),
                                    p as int,
                                    l + 1,
                                ) by {
                                lemma_action_absent(
                                    rules,
                                    sets,
                                    si as int,
                                    t,
                                    self.action_entry(si as int, t),
                                    p as int,
                                    l as int,
                                );
                            }
                        }
                    }
                    l += 1;
                }
                proof {
                    assert forall|t: TokenType|
                        action_justified_before(
                            rules,
                            sets,
                            si as int,
                            t,
                            #[trigger] self.action_entry(si as int, t),
                            p + 1,
                            0,
                        ) by {
                        lemma_action_next_rule(
                            rules,
                            sets,
                            si as int,
                            t,
                            self.action_entry(si as int, t),
                            p as int,
                        );
                    }
                }
                p += 1;
            }
            si += 1;
        }

        proof {
            assert forall|s: int, t: TokenType| 0 <= s < self.states.len() implies action_justified(
                rules,
                sets,
                s,
                t,
                #[trigger] self.action_entry(s, t),
            ) by {
                lemma_action_justified_at_end(rules, sets, s, t, self.action_entry(s, t));
            }
        }
    }

    /// Get the action for a state and terminal
    pub fn action(&self, state: usize, terminal: TokenType) -> (action: Option<&Action>)
        requires
            self.action_table.wf(),
        ensures
            match action {
                Some(a) => self.action_entry(state as int, terminal) == Some(*a),
                None => self.action_entry(state as int, terminal) is None,
            },
    {
        self.action_table.get(state, terminal.index())
    }

    /// Get the goto state for a state and non-terminal
    pub fn goto(&self, state: usize, non_terminal: NonTerminal) -> (target: Option<usize>)
        requires
            self.goto_table.wf(),
        ensures
            target == self.goto_entry(state as int, non_terminal),
    {
        match self.goto_table.get(state, non_terminal.index()) {
            Some(target) => Some(*target),
            None => None,
        }
    }

    /// Compute the closure of a set of LR(1) items
    pub fn closure(&self, kernel: ItemSet) -> (closure: ItemSet)
        requires
            self.grammar.wf(),
            kernel.fits(self.grammar.rules()),
        ensures
            closure.fits(self.grammar.rules()),
            closure@ == closure_of(self.grammar.rules(), kernel@),
    {
        let ghost rules = self.grammar.rules();
        let mut closure = kernel.duplicate();
        let mut changed = true;
        proof {
            lemma_closure_holds_kernel(rules, kernel@);
        }

        while changed
            invariant
                rules == self.grammar.rules(),
                self.grammar.wf(),
                kernel.fits(rules),
                closure.fits(rules),
                kernel@.subset_of(closure@),
                closure@.subset_of(closure_of(rules, kernel@)),
                !changed ==> forall|a: LrItem, b: LrItem|
                    closure@.contains(a) && #[trigger] predicts(rules, a, b) ==>
                        closure@.contains(b),
            decreases closure.vacancies(), (if changed { 1int } else { 0int }),
        {
            changed = false;
            let current_closure = closure.duplicate();
            let ghost before = closure.vacancies();

            let mut p: usize = 0;
            while p < self.grammar.productions.len()
                invariant
                    rules == self.grammar.rules(),
                    self.grammar.wf(),
                    p <= self.grammar.productions.len(),
                    current_closure.fits(rules),
                    closure.fits(rules),
                    kernel@.subset_of(closure@),
                    current_closure@.subset_of(closure@),
                    closure@.subset_of(closure_of(rules, kernel@)),
                    !changed ==> closure@ == current_closure@ && closure.vacancies() == before,
                    changed ==> closure.vacancies() < before,
                    !changed ==> forall|a: LrItem, b: LrItem|
                        current_closure@.contains(a) && item_before(a, p as int, 0, 0)
                            && #[trigger] predicts(rules, a, b) ==> closure@.contains(b),
                decreases self.grammar.productions.len() - p,
            {
                let n = self.grammar.productions[p].rhs.len();
                assert(rules[p as int].rhs.len() == n);
                let mut d: usize = 0;
                while d < n
                    invariant
                        rules == self.grammar.rules(),
                        self.grammar.wf(),
                        p < self.grammar.productions.len(),
                        n == rules[p as int].rhs.len(),
                        d <= n,
                        current_closure.fits(rules),
                        closure.fits(rules),
                        kernel@.subset_of(closure@),
                        current_closure@.subset_of(closure@),
                        closure@.subset_of(closure_of(rules, kernel@)),
                        !changed ==> closure@ == current_closure@ && closure.vacancies() == before,
                        changed ==> closure.vacancies() < before,
                        !changed ==> forall|a: LrItem, b: LrItem|
                            current_closure@.contains(a) && item_before(a, p as int, d as int, 0)
                                && #[trigger] predicts(rules, a, b) ==> closure@.contains(b),
                    decreases n - d,
                {
                    let mut l: usize = 0;
                    while l < 8
                        invariant
                            rules == self.grammar.rules(),
                            self.grammar.wf(),
                            p < self.grammar.productions.len(),
                            n == rules[p as int].rhs.len(),
                            d < n,
                            l <= 8,
                            current_closure.fits(rules),
                            closure.fits(rules),
                            kernel@.subset_of(closure@),
                            current_closure@.subset_of(closure@),
                            closure@.subset_of(closure_of(rules, kernel@)),
                            !changed ==> closure@ == current_closure@
                                && closure.vacancies() == before,
                            changed ==> closure.vacancies() < before,
                            !changed ==> forall|a: LrItem, b: LrItem|
                                current_closure@.contains(a)
                                    && item_before(a, p as int, d as int, l as int)
                                    && #[trigger] predicts(rules, a, b) ==> closure@.contains(b),
                        decreases 8 - l,
                    {
                        let item = LrItem {
                            production_id: p,
                            dot_position: d,
                            lookahead: TokenType::from_index(l),
                        };
                        if current_closure.contains(&item) {
                            let ghost old_view = closure@;
                            proof {
                                assert forall|b: LrItem| predicts(rules, item, b) implies
                                    closure_of(
                                    rules,
                                    kernel@,
                                ).contains(b) by {
                                    lemma_closure_step(rules, kernel@, item, b);
                                }
                            }
                            if self.predict(&mut closure, &item) {
                                changed = true;
                            }
                        }
                        proof {
                            if !changed {
                                assert forall|a: LrItem, b: LrItem|
                                    current_closure@.contains(a) && item_before(
                                        a,
                                        p as int,
                                        d as int,
                                        l + 1,
                                    ) && #[trigger] predicts(rules, a, b) implies closure@.contains(
                                    b,
                                ) by {
                                    if !item_before(a, p as int, d as int, l as int) {
                                        assert(a.lookahead.ordinal() == l);
                                        assert(TokenType::at_ordinal(a.lookahead.ordinal())
                                            == a.lookahead);
                                        assert(a == item);
                                    }
                                }
                            }
                        }
                        l += 1;
                    }
                    d += 1;
                }
                proof {
                    if !changed {
                        assert forall|a: LrItem, b: LrItem|
                            current_closure@.contains(a) && item_before(a, p + 1, 0, 0)
                                && #[trigger] predicts(rules, a, b) implies
                                    closure@.contains(b) by {
                            if a.production_id == p {
                                assert(after_dot(rules, a) is Some);
                                assert(item_before(a, p as int, n as int, 0));
                            }
                        }
                    }
                }
                p += 1;
            }
            proof {
                if !changed {
                    assert forall|a: LrItem, b: LrItem|
                        closure@.contains(a) && #[trigger] predicts(rules, a, b) implies
                            closure@.contains(
                        b,
                    ) by {
                        assert(after_dot(rules, a) is Some);
                        assert(item_before(a, p as int, 0, 0));
                    }
                }
            }
        }

        proof {
            assert forall|item: LrItem| closure_of(rules, kernel@).contains(item) implies
                closure@.contains(
                item,
            ) by {
                let n = choose|n: nat| crate::automaton::derived_within(rules, kernel@, item, n);
                lemma_closure_least(rules, kernel@, closure@, item, n);
            }
            assert(closure@ =~= closure_of(rules, kernel@));
        }
        closure
    }

    /// Adds to the set the items that the closure brings in because of `item`;
    /// tells whether any was new.
    pub fn predict(&self, closure: &mut ItemSet, item: &LrItem) -> (changed: bool)
        requires
            self.grammar.wf(),
            old(closure).fits(self.grammar.rules()),
            item_valid(self.grammar.rules(), *item),
        ensures
            final(closure).fits(self.grammar.rules()),
            final(closure)@ == old(closure)@.union(
                Set::new(|b: LrItem| predicts(self.grammar.rules(), *item, b)),
            ),
            changed ==> final(closure).vacancies() < old(closure).vacancies(),
            !changed ==> final(closure)@ == old(closure)@ && final(closure).vacancies() == old(
                closure,
            ).vacancies(),
    {
        let ghost rules = self.grammar.rules();
        let ghost added = Set::new(|b: LrItem| predicts(rules, *item, b));
        let mut changed = false;
        if let Some(Symbol::NonTerminal(non_terminal)) = self.symbol_after_dot(item) {
            // Compute lookaheads for new items
            let beta = self.symbols_after_dot(item, 1);
            let lookaheads = if beta.is_empty() {
                TerminalSet::singleton(item.lookahead)
            } else {
                let mut first_beta = self.grammar.first_of_sequence(beta.as_slice());
                if self.all_derive_epsilon(&beta) {
                    first_beta.insert(item.lookahead);
                }
                first_beta
            };
            assert(lookaheads@ == lookaheads_of(rules, *item));

            // Add items for all productions of the non-terminal
            let mut q: usize = 0;
            while q < self.grammar.productions.len()
                invariant
                    rules == self.grammar.rules(),
                    self.grammar.wf(),
                    q <= self.grammar.productions.len(),
                    closure.fits(rules),
                    after_dot(rules, *item) == Some(Symbol::NonTerminal(non_terminal)),
                    lookaheads@ == lookaheads_of(rules, *item),
                    predict_progress(rules, *item, old(closure)@, closure@, q as int, 0),
                    changed ==> closure.vacancies() < old(closure).vacancies(),
                    !changed ==> closure@ == old(closure)@ && closure.vacancies() == old(
                        closure,
                    ).vacancies(),
                decreases self.grammar.productions.len() - q,
            {
                let production = &self.grammar.productions[q];
                assert(rules[q as int] == production@);
                if production.lhs == non_terminal {
                    let mut l: usize = 0;
                    while l < 8
                        invariant
                            rules == self.grammar.rules(),
                            self.grammar.wf(),
                            q < self.grammar.productions.len(),
                            *production == self.grammar.productions[q as int],
                            rules[q as int].lhs == non_terminal,
                            l <= 8,
                            closure.fits(rules),
                            after_dot(rules, *item) == Some(Symbol::NonTerminal(non_terminal)),
                            lookaheads@ == lookaheads_of(rules, *item),
                            predict_progress(rules, *item, old(closure)@, closure@, q as int,
                                l as int),
                            changed ==> closure.vacancies() < old(closure).vacancies(),
                            !changed ==> closure@ == old(closure)@ && closure.vacancies() == old(
                                closure,
                            ).vacancies(),
                        decreases 8 - l,
                    {
                        let lookahead = TokenType::from_index(l);
                        if lookaheads.contains(&lookahead) {
                            let new_item = LrItem {
                                production_id: production.id,
                                dot_position: 0,
                                lookahead,
                            };
                            proof {
                                assert(rules[q as int].id == q);
                                assert(predicts(rules, *item, new_item));
                                closure.lemma_fits(rules);
                            }
                            let ghost prior = closure@;
                            if closure.insert(new_item) {
                                changed = true;
                            }
                            assert forall|b: LrItem|
                                #![trigger predicts(rules, *item, b)]
                                predicts(rules, *item, b)
                                    && item_before(b, q as int, 0, l + 1) implies closure@.contains(
                                b,
                            ) by {
                                if !item_before(b, q as int, 0, l as int) {
                                    assert(TokenType::at_ordinal(b.lookahead.ordinal())
                                        == b.lookahead);
                                    assert(b == new_item);
                                }
                            }
                        } else {
                            assert forall|b: LrItem|
                                #![trigger predicts(rules, *item, b)]
                                predicts(rules, *item, b)
                                    && item_before(b, q as int, 0, l + 1) implies closure@.contains(
                                b,
                            ) by {
                                if !item_before(b, q as int, 0, l as int) {
                                    assert(TokenType::at_ordinal(b.lookahead.ordinal())
                                        == b.lookahead);
                                    assert(b.lookahead == lookahead);
                                }
                            }
                        }
                        l += 1;
                    }
                }
                q += 1;
            }
            assert(closure@ =~= old(closure)@.union(added));
        } else {
            assert(closure@ =~= old(closure)@.union(added));
        }
        changed
    }

    /// The kernel that the items give on a symbol: those with the symbol
    /// after the dot, with the dot moved forward.
    pub fn goto_kernel(&self, items: &ItemSet, symbol: Symbol) -> (kernel: ItemSet)
        requires
            self.grammar.wf(),
            items.fits(self.grammar.rules()),
        ensures
            kernel.fits(self.grammar.rules()),
            kernel@ == kernel_of(self.grammar.rules(), items@, symbol),
    {
        let ghost rules = self.grammar.rules();
        let mut kernel = ItemSet::new(&self.grammar.productions);
        let mut p: usize = 0;
        while p < self.grammar.productions.len()
            invariant
                rules == self.grammar.rules(),
                self.grammar.wf(),
                p <= self.grammar.productions.len(),
                items.fits(rules),
                kernel.fits(rules),
                kernel_progress(rules, items@, symbol, kernel@, p as int, 0, 0),
            decreases self.grammar.productions.len() - p,
        {
            let n = self.grammar.productions[p].rhs.len();
            assert(rules[p as int].rhs.len() == n);
            let mut d: usize = 0;
            while d < n
                invariant
                    rules == self.grammar.rules(),
                    self.grammar.wf(),
                    p < self.grammar.productions.len(),
                    n == rules[p as int].rhs.len(),
                    d <= n,
                    items.fits(rules),
                    kernel.fits(rules),
                    kernel_progress(rules, items@, symbol, kernel@, p as int, d as int, 0),
                decreases n - d,
            {
                let mut l: usize = 0;
                while l < 8
                    invariant
                        rules == self.grammar.rules(),
                        self.grammar.wf(),
                        p < self.grammar.productions.len(),
                        n == rules[p as int].rhs.len(),
                        d < n,
                        l <= 8,
                        items.fits(rules),
                        kernel.fits(rules),
                        kernel_progress(rules, items@, symbol, kernel@, p as int, d as int,
                            l as int),
                    decreases 8 - l,
                {
                    let item = LrItem {
                        production_id: p,
                        dot_position: d,
                        lookahead: TokenType::from_index(l),
                    };
                    let ghost prior = kernel@;
                    let mut moved = false;
                    if items.contains(&item) {
                        if let Some(after) = self.symbol_after_dot(&item) {
                            if after == symbol {
                                // Create new item with dot moved forward
                                let new_item = LrItem {
                                    production_id: item.production_id,
                                    dot_position: item.dot_position + 1,
                                    lookahead: item.lookahead,
                                };
                                proof {
                                    kernel.lemma_fits(rules);
                                    assert(retreated(new_item) == item);
                                }
                                kernel.insert(new_item);
                                moved = true;
                            }
                        }
                    }
                    proof {
                        assert forall|k: LrItem|
                            #![trigger kernel@.contains(k)]
                            kernel@.contains(k) implies kernel_of(rules, items@, symbol).contains(k)
                            && item_before(retreated(k), p as int, d as int, l + 1) by {
                            if prior.contains(k) {
                                assert(item_before(retreated(k), p as int, d as int, l as int));
                            }
                        }
                        assert forall|k: LrItem|
                            #![trigger kernel_of(rules, items@, symbol).contains(k)]
                            kernel_of(rules, items@, symbol).contains(k) && item_before(
                                retreated(k),
                                p as int,
                                d as int,
                                l + 1,
                            ) implies kernel@.contains(k) by {
                            if !item_before(retreated(k), p as int, d as int, l as int) {
                                assert(TokenType::at_ordinal(k.lookahead.ordinal()) == k.lookahead);
                                assert(retreated(k) == item);
                                assert(moved);
                            } else {
                                assert(prior.contains(k));
                            }
                        }
                    }
                    l += 1;
                }
                d += 1;
            }
            proof {
                assert forall|k: LrItem|
                    #![trigger kernel_of(rules, items@, symbol).contains(k)]
                    kernel_of(rules, items@, symbol).contains(k) && item_before(
                        retreated(k),
                        p + 1,
                        0,
                        0,
                    ) implies kernel@.contains(k) by {
                    assert(item_before(retreated(k), p as int, n as int, 0));
                }
            }
            p += 1;
        }
        assert(kernel@ =~= kernel_of(rules, items@, symbol));
        kernel
    }

    /// The position of the state with these items, if there is one.
    pub fn find_state(states: &Vec<LrState>, items: &ItemSet) -> (found: Option<usize>)
        requires
            items.wf(),
            forall|k: int|
                0 <= k < states.len() ==>
                    (#[trigger] states[k]).items.wf() && states[k].items.layout()
                    == items.layout(),
        ensures
            match found {
                Some(k) => k < states.len() && states[k as int].items@ == items@ && forall|j: int|
                    0 <= j < k ==> (#[trigger] states[j]).items@ != items@,
                None => forall|k: int| 0 <= k < states.len() ==>
                    (#[trigger] states[k]).items@ != items@,
            },
    {
        let mut k: usize = 0;
        while k < states.len()
            invariant
                k <= states.len(),
                items.wf(),
                forall|j: int|
                    0 <= j < states.len() ==> (#[trigger] states[j]).items.wf()
                        && states[j].items.layout() == items.layout(),
                forall|j: int| 0 <= j < k ==> (#[trigger] states[j]).items@ != items@,
            decreases states.len() - k,
        {
            if states[k].items.same(items) {
                return Some(k);
            }
            k += 1;
        }
        None
    }

    /// Add a transition to the parsing tables
    pub fn add_transition(&mut self, from_state: usize, symbol: Symbol, to_state: usize)
        requires
            tables_fit(old(self).action_table, old(self).goto_table,
                old(self).action_table.height()),
            from_state < old(self).action_table.height(),
        ensures
            final(self).grammar == old(self).grammar,
            final(self).states == old(self).states,
            tables_fit(
                final(self).action_table,
                final(self).goto_table,
                old(self).action_table.height(),
            ),
            shifts_only(old(self).action_table) ==> shifts_only(final(self).action_table),
            edges_of(final(self).action_table, final(self).goto_table) == edges_of(
                old(self).action_table,
                old(self).goto_table,
            ).update(
                from_state as int,
                edges_of(old(self).action_table, old(self).goto_table)[from_state as int].update(
                    symbol.ordinal(),
                    Some(to_state),
                ),
            ),
            match symbol {
                Symbol::Terminal(terminal) => {
                    &&& final(self).action_table@ == old(self).action_table@.update(
                        from_state as int,
                        old(self).action_table@[from_state as int].update(
                            terminal.ordinal(),
                            Some(Action::Shift(to_state)),
                        ),
                    )
                    &&& final(self).goto_table@ == old(self).goto_table@
                },
                Symbol::NonTerminal(non_terminal) => {
                    &&& final(self).goto_table@ == old(self).goto_table@.update(
                        from_state as int,
                        old(self).goto_table@[from_state as int].update(
                            non_terminal.ordinal(),
                            Some(to_state),
                        ),
                    )
                    &&& final(self).action_table@ == old(self).action_table@
                },
            },
    {
        let ghost before = edges_of(self.action_table, self.goto_table);
        match symbol {
            Symbol::Terminal(terminal) => {
                self.action_table.insert(from_state, terminal.index(), Action::Shift(to_state));
            },
            Symbol::NonTerminal(non_terminal) => {
                self.goto_table.insert(from_state, non_terminal.index(), to_state);
            },
        }
        proof {
            if shifts_only(old(self).action_table) {
                assert forall|s: int, c: int|
                    #![trigger self.action_table.entry(s, c)]
                    self.action_table.entry(s, c) is Some implies self.action_table.entry(
                    s,
                    c,
                )->Some_0 is Shift by {
                    if !(s == from_state && symbol is Terminal && c == symbol.ordinal()) {
                        assert(self.action_table.entry(s, c) == old(self).action_table.entry(s, c));
                    }
                }
            }
            let after = edges_of(self.action_table, self.goto_table);
            let expected = before.update(
                from_state as int,
                before[from_state as int].update(symbol.ordinal(), Some(to_state)),
            );
            assert forall|s: int| 0 <= s < after.len() implies after[s] == expected[s] by {
                assert(after[s] =~= expected[s]);
            }
            assert(after =~= expected);
        }
    }

    /// Adds a row for a new state to both tables.
    fn add_rows(&mut self)
        requires
            tables_fit(old(self).action_table, old(self).goto_table,
                old(self).action_table.height()),
        ensures
            final(self).grammar == old(self).grammar,
            final(self).states == old(self).states,
            tables_fit(
                final(self).action_table,
                final(self).goto_table,
                old(self).action_table.height() + 1,
            ),
            shifts_only(old(self).action_table) ==> shifts_only(final(self).action_table),
            edges_of(final(self).action_table, final(self).goto_table) == edges_of(
                old(self).action_table,
                old(self).goto_table,
            ).push(Seq::new(12, |y: int| None::<usize>)),
    {
        let ghost before = edges_of(self.action_table, self.goto_table);
        self.action_table.add_row();
        self.goto_table.add_row();
        proof {
            if shifts_only(old(self).action_table) {
                assert forall|s: int, c: int|
                    #![trigger self.action_table.entry(s, c)]
                    self.action_table.entry(s, c) is Some implies self.action_table.entry(
                    s,
                    c,
                )->Some_0 is Shift by {
                    if s < old(self).action_table.height() {
                        assert(self.action_table.entry(s, c) == old(self).action_table.entry(s, c));
                    }
                }
            }
            let after = edges_of(self.action_table, self.goto_table);
            let expected = before.push(Seq::new(12, |y: int| None::<usize>));
            assert forall|s: int| 0 <= s < after.len() implies after[s] == expected[s] by {
                assert(after[s] =~= expected[s]);
            }
            assert(after =~= expected);
        }
    }

    /// Get the symbol after the dot in an LR item
    pub fn symbol_after_dot(&self, item: &LrItem) -> (symbol: Option<Symbol>)
        requires
            item.production_id < self.grammar.productions.len(),
        ensures
            symbol == after_dot(self.grammar.rules(), *item),
    {
        let production = &self.grammar.productions[item.production_id];
        assert(self.grammar.rules()[item.production_id as int] == production@);
        if item.dot_position < production.rhs.len() {
            Some(production.rhs[item.dot_position])
        } else {
            None
        }
    }

    /// Get symbols after the dot (skipping the first n symbols)
    pub fn symbols_after_dot(&self, item: &LrItem, skip: usize) -> (symbols: Vec<Symbol>)
        requires
            item.production_id < self.grammar.productions.len(),
            item.dot_position + skip <= self.grammar.rules()[item.production_id as int].rhs.len(),
        ensures
            symbols@ == self.grammar.rules()[item.production_id as int].rhs.subrange(
                item.dot_position + skip,
                self.grammar.rules()[item.production_id as int].rhs.len() as int,
            ),
    {
        let production = &self.grammar.productions[item.production_id];
        assert(self.grammar.rules()[item.production_id as int] == production@);
        let end = production.rhs.len();
        let from = item.dot_position + skip;
        slice_to_vec(slice_subrange(production.rhs.as_slice(), from, end))
    }

    /// Check if a symbol can derive epsilon
    pub fn can_derive_epsilon(&self, _symbol: &Symbol) -> (nullable: bool)
        ensures
            !nullable,
    {
        // Our grammar has no epsilon productions
        false
    }

    /// Check if every symbol of a sequence can derive epsilon
    fn all_derive_epsilon(&self, symbols: &Vec<Symbol>) -> (nullable: bool)
        ensures
            nullable == (symbols.len() == 0),
    {
        let mut i: usize = 0;
        while i < symbols.len()
            invariant
                i == 0,
            decreases symbols.len() - i,
        {
            if !self.can_derive_epsilon(&symbols[i]) {
                return false;
            }
            i += 1;
        }
        true
    }
}

} // verus!
