//! FIRST and FOLLOW sets of a list of rules, as mathematical definitions, with
//! the facts that the computation of the sets rests on.

use crate::grammar::{NonTerminal, Rule, Symbol};
use crate::token::{TerminalSet, TokenType};
use vstd::prelude::*;

verus! {

// ---------------------------------------------------------------------------
// FIRST
// ---------------------------------------------------------------------------
/// Some rule for the non-terminal `x` has `y` as the first symbol of its
/// right-hand side.
pub open spec fn leads(rules: Seq<Rule>, x: Symbol, y: Symbol) -> bool {
    exists|i: int|
        0 <= i < rules.len() && x == Symbol::NonTerminal((#[trigger] rules[i]).lhs)
            && rules[i].rhs.len() > 0 && rules[i].rhs[0] == y
}

/// `y` is reached from `x` by taking the first symbol of a rule `n` times.
pub open spec fn leads_within(rules: Seq<Rule>, x: Symbol, y: Symbol, n: nat) -> bool
    decreases n,
{
    if n == 0 {
        x == y
    } else {
        exists|z: Symbol| #[trigger] leads(rules, x, z) && leads_within(rules, z, y, (n - 1) as nat)
    }
}

/// FIRST of a symbol: the terminals with which a string derived from the
/// symbol can begin, in a grammar none of whose symbols derives the empty
/// string. It is the least assignment of sets in which a terminal has itself
/// and a non-terminal has FIRST of the leading symbol of each of its rules.
pub open spec fn first_of(rules: Seq<Rule>, x: Symbol) -> Set<TokenType> {
    Set::new(|t: TokenType| exists|n: nat| leads_within(rules, x, Symbol::Terminal(t), n))
}

/// FIRST of a sequence of symbols. As no symbol derives the empty string, it
/// is FIRST of the leading symbol.
pub open spec fn first_of_seq(rules: Seq<Rule>, symbols: Seq<Symbol>) -> Set<TokenType> {
    if symbols.len() == 0 {
        Set::empty()
    } else {
        first_of(rules, symbols[0])
    }
}

/// Terminals are their own FIRST set.
pub proof fn lemma_first_of_terminal(rules: Seq<Rule>, t: TokenType)
    ensures
        first_of(rules, Symbol::Terminal(t)) == set![t],
{
    let x = Symbol::Terminal(t);
    assert forall|u: TokenType| first_of(rules, x).contains(u) implies u == t by {
        let n = choose|n: nat| leads_within(rules, x, Symbol::Terminal(u), n);
        if n > 0 {
            let z = choose|z: Symbol|
                #[trigger] leads(rules, x, z) && leads_within(
                    rules,
                    z,
                    Symbol::Terminal(u),
                    (n - 1) as nat,
                );
            assert(false);
        }
    }
    assert(leads_within(rules, x, x, 0));
    assert(first_of(rules, x) =~= set![t]);
}

/// FIRST of the leading symbol of a rule is part of FIRST of its left-hand side.
pub proof fn lemma_first_of_rule(rules: Seq<Rule>, i: int)
    requires
        0 <= i < rules.len(),
        rules[i].rhs.len() > 0,
    ensures
        first_of(rules, rules[i].rhs[0]).subset_of(
            first_of(rules, Symbol::NonTerminal(rules[i].lhs)),
        ),
{
    let x = Symbol::NonTerminal(rules[i].lhs);
    let z = rules[i].rhs[0];
    assert forall|t: TokenType| first_of(rules, z).contains(t) implies first_of(
        rules,
        x,
    ).contains(t) by {
        let n = choose|n: nat| leads_within(rules, z, Symbol::Terminal(t), n);
        assert(leads(rules, x, z));
        assert(leads_within(rules, z, Symbol::Terminal(t), ((n + 1) - 1) as nat));
        assert(leads_within(rules, x, Symbol::Terminal(t), (n + 1) as nat));
    }
}

/// An assignment of sets to the symbols that gives each terminal itself and
/// is closed under the rules contains FIRST.
pub proof fn lemma_first_least(rules: Seq<Rule>, sets: Seq<TerminalSet>, x: Symbol, t: TokenType,
    n: nat)
    requires
        sets.len() == 12,
        forall|u: TokenType| (#[trigger] sets[u.ordinal()])@.contains(u),
        forall|i: int|
            0 <= i < rules.len() && (#[trigger] rules[i]).rhs.len() > 0 ==>
                sets[rules[i].rhs[0].ordinal()]@.subset_of(
                sets[8 + rules[i].lhs.ordinal()]@,
            ),
        leads_within(rules, x, Symbol::Terminal(t), n),
    ensures
        sets[x.ordinal()]@.contains(t),
    decreases n,
{
    if n == 0 {
        assert(sets[t.ordinal()]@.contains(t));
    } else {
        let z = choose|z: Symbol|
            #[trigger] leads(rules, x, z) && leads_within(
                rules,
                z,
                Symbol::Terminal(t),
                (n - 1) as nat,
            );
        lemma_first_least(rules, sets, z, t, (n - 1) as nat);
        let i = choose|i: int|
            0 <= i < rules.len() && x == Symbol::NonTerminal((#[trigger] rules[i]).lhs)
                && rules[i].rhs.len() > 0 && rules[i].rhs[0] == z;
        assert(sets[rules[i].rhs[0].ordinal()]@.subset_of(sets[8 + rules[i].lhs.ordinal()]@));
    }
}

// ---------------------------------------------------------------------------
// FOLLOW
// ---------------------------------------------------------------------------
/// `t` follows `a` at once: `a` is the start symbol and `t` the end of input,
/// or some rule has `a` before a symbol whose FIRST holds `t`.
pub open spec fn follows_directly(
    rules: Seq<Rule>,
    start: NonTerminal,
    a: NonTerminal,
    t: TokenType,
) -> bool {
    ||| (a == start && t == TokenType::Eof)
    ||| exists|i: int, k: int|
        0 <= i < rules.len() && 0 <= k && k + 1 < rules[i].rhs.len() && #[trigger] rules[i].rhs[k]
            == Symbol::NonTerminal(a) && first_of(rules, rules[i].rhs[k + 1]).contains(t)
}

/// Some rule for `b` ends in `a`, so that what follows `b` follows `a`.
pub open spec fn ends(rules: Seq<Rule>, b: NonTerminal, a: NonTerminal) -> bool {
    exists|i: int|
        0 <= i < rules.len() && (#[trigger] rules[i]).lhs == b && rules[i].rhs.len() > 0
            && rules[i].rhs.last() == Symbol::NonTerminal(a)
}

/// `t` follows `a` because it follows directly a non-terminal that is reached
/// from `a` by going, `n` times, from the last symbol of a rule to the rule's
/// left-hand side.
pub open spec fn follows_within(
    rules: Seq<Rule>,
    start: NonTerminal,
    a: NonTerminal,
    t: TokenType,
    n: nat,
) -> bool
    decreases n,
{
    if n == 0 {
        follows_directly(rules, start, a, t)
    } else {
        exists|b: NonTerminal|
            #[trigger] ends(rules, b, a) && follows_within(rules, start, b, t, (n - 1) as nat)
    }
}

/// FOLLOW of a non-terminal: the terminals that can come right after it, in a
/// grammar none of whose symbols derives the empty string. It is the least
/// assignment of sets in which the start symbol has the end of input, a
/// non-terminal has FIRST of what stands behind it in a rule, and the last
/// symbol of a rule has FOLLOW of the rule's left-hand side.
pub open spec fn follow_of(rules: Seq<Rule>, start: NonTerminal, a: NonTerminal) -> Set<
    TokenType,
> {
    Set::new(|t: TokenType| exists|n: nat| follows_within(rules, start, a, t, n))
}

/// FOLLOW of the start symbol holds the end of input.
pub proof fn lemma_follow_of_start(rules: Seq<Rule>, start: NonTerminal)
    ensures
        follow_of(rules, start, start).contains(TokenType::Eof),
{
    assert(follows_within(rules, start, start, TokenType::Eof, 0));
}

/// FIRST of what stands behind a non-terminal in a rule is part of its FOLLOW.
pub proof fn lemma_follow_of_inner(rules: Seq<Rule>, start: NonTerminal, i: int, k: int)
    requires
        0 <= i < rules.len(),
        0 <= k,
        k + 1 < rules[i].rhs.len(),
        rules[i].rhs[k] is NonTerminal,
    ensures
        first_of(rules, rules[i].rhs[k + 1]).subset_of(
            follow_of(rules, start, rules[i].rhs[k]->NonTerminal_0),
        ),
{
    let a = rules[i].rhs[k]->NonTerminal_0;
    assert forall|t: TokenType| first_of(rules, rules[i].rhs[k + 1]).contains(t) implies follow_of(
        rules,
        start,
        a,
    ).contains(t) by {
        assert(rules[i].rhs[k] == Symbol::NonTerminal(a));
        assert(follows_directly(rules, start, a, t));
        assert(follows_within(rules, start, a, t, 0));
    }
}

/// FOLLOW of a rule's left-hand side is part of FOLLOW of its last symbol.
pub proof fn lemma_follow_of_last(rules: Seq<Rule>, start: NonTerminal, i: int)
    requires
        0 <= i < rules.len(),
        rules[i].rhs.len() > 0,
        rules[i].rhs.last() is NonTerminal,
    ensures
        follow_of(rules, start, rules[i].lhs).subset_of(
            follow_of(rules, start, rules[i].rhs.last()->NonTerminal_0),
        ),
{
    let a = rules[i].rhs.last()->NonTerminal_0;
    let b = rules[i].lhs;
    assert forall|t: TokenType| follow_of(rules, start, b).contains(t) implies follow_of(
        rules,
        start,
        a,
    ).contains(t) by {
        let n = choose|n: nat| follows_within(rules, start, b, t, n);
        assert(ends(rules, b, a));
        assert(follows_within(rules, start, b, t, ((n + 1) - 1) as nat));
        assert(follows_within(rules, start, a, t, (n + 1) as nat));
    }
}

/// An assignment of sets to the non-terminals that meets the three rules of
/// FOLLOW contains FOLLOW.
pub proof fn lemma_follow_least(
    rules: Seq<Rule>,
    start: NonTerminal,
    sets: Seq<TerminalSet>,
    a: NonTerminal,
    t: TokenType,
    n: nat,
)
    requires
        sets.len() == 4,
        sets[start.ordinal()]@.contains(TokenType::Eof),
        forall|i: int, k: int|
            0 <= i < rules.len() && 0 <= k && k + 1 < rules[i].rhs.len() && (
            #[trigger] rules[i].rhs[k]) is NonTerminal ==> first_of(
                rules,
                rules[i].rhs[k + 1],
            ).subset_of(sets[rules[i].rhs[k]->NonTerminal_0.ordinal()]@),
        forall|i: int|
            0 <= i < rules.len() && (#[trigger] rules[i]).rhs.len() > 0
                && rules[i].rhs.last() is NonTerminal ==> sets[rules[i].lhs.ordinal()]@.subset_of(
                sets[rules[i].rhs.last()->NonTerminal_0.ordinal()]@,
            ),
        follows_within(rules, start, a, t, n),
    ensures
        sets[a.ordinal()]@.contains(t),
    decreases n,
{
    if n == 0 {
        if !(a == start && t == TokenType::Eof) {
            let (i, k) = choose|i: int, k: int|
                0 <= i < rules.len() && 0 <= k && k + 1 < rules[i].rhs.len()
                    && #[trigger] rules[i].rhs[k] == Symbol::NonTerminal(a) && first_of(
                    rules,
                    rules[i].rhs[k + 1],
                ).contains(t);
            assert(rules[i].rhs[k] is NonTerminal);
        }
    } else {
        let b = choose|b: NonTerminal|
            #[trigger] ends(rules, b, a) && follows_within(rules, start, b, t, (n - 1) as nat);
        lemma_follow_least(rules, start, sets, b, t, (n - 1) as nat);
        let i = choose|i: int|
            0 <= i < rules.len() && (#[trigger] rules[i]).lhs == b && rules[i].rhs.len() > 0
                && rules[i].rhs.last() == Symbol::NonTerminal(a);
        assert(sets[rules[i].lhs.ordinal()]@.subset_of(
            sets[rules[i].rhs.last()->NonTerminal_0.ordinal()]@,
        ));
    }
}

// ---------------------------------------------------------------------------
// Counting what a family of sets still lacks
// ---------------------------------------------------------------------------
/// How many terminals the sets of a family lack, all sets together.
pub open spec fn total_vacancies(sets: Seq<TerminalSet>) -> nat
    decreases sets.len(),
{
    if sets.len() == 0 {
        0
    } else {
        total_vacancies(sets.drop_last()) + sets.last().vacancies()
    }
}

/// Replacing one set of a family by a larger one lowers the count by the
/// number of terminals gained.
pub proof fn lemma_total_vacancies_update(sets: Seq<TerminalSet>, i: int, s: TerminalSet)
    requires
        0 <= i < sets.len(),
        sets[i].count() <= s.count(),
    ensures
        total_vacancies(sets.update(i, s)) + (s.count() - sets[i].count()) == total_vacancies(sets),
    decreases sets.len(),
{
    s.lemma_count_bounds();
    sets[i].lemma_count_bounds();
    let updated = sets.update(i, s);
    if i == sets.len() - 1 {
        assert(updated.drop_last() =~= sets.drop_last());
    } else {
        lemma_total_vacancies_update(sets.drop_last(), i, s);
        assert(updated.drop_last() =~= sets.drop_last().update(i, s));
    }
}

} // verus!
