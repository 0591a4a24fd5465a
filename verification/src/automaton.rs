//! The LR(1) automaton of a list of rules, as mathematical definitions:
//! closure, transitions and the canonical collection of states.

use crate::first_follow::first_of;
use crate::grammar::{Rule, Symbol};
use crate::item_set::LrItem;
use crate::lr_table::Action;
use crate::token::TokenType;
use vstd::prelude::*;

verus! {

/// The item from which every parse starts: the rule 0 with nothing read yet
/// and the end of input behind it.
pub open spec fn initial_item() -> LrItem {
    LrItem { production_id: 0, dot_position: 0, lookahead: TokenType::Eof }
}

/// The symbol immediately after the dot, if the dot is not at the end.
pub open spec fn after_dot(rules: Seq<Rule>, item: LrItem) -> Option<Symbol> {
    if item.production_id < rules.len()
        && item.dot_position < rules[item.production_id as int].rhs.len() {
        Some(rules[item.production_id as int].rhs[item.dot_position as int])
    } else {
        None
    }
}

/// The lookaheads of the items that an item with a non-terminal after its dot
/// brings in: FIRST of what stands behind that non-terminal, or, where
/// nothing does, the item's own lookahead.
pub open spec fn lookaheads_of(rules: Seq<Rule>, item: LrItem) -> Set<TokenType> {
    let rhs = rules[item.production_id as int].rhs;
    if item.dot_position + 1 < rhs.len() {
        first_of(rules, rhs[item.dot_position + 1])
    } else {
        set![item.lookahead]
    }
}

/// Closure brings in `b` because of `a`: `a` has a non-terminal after its dot,
/// and `b` is a rule of that non-terminal with the dot in front and one of the
/// lookaheads that `a` gives.
pub open spec fn predicts(rules: Seq<Rule>, a: LrItem, b: LrItem) -> bool {
    &&& after_dot(rules, a) is Some
    &&& after_dot(rules, a)->Some_0 is NonTerminal
    &&& b.production_id < rules.len()
    &&& rules[b.production_id as int].lhs == after_dot(rules, a)->Some_0->NonTerminal_0
    &&& b.dot_position == 0
    &&& lookaheads_of(rules, a).contains(b.lookahead)
}

/// The item is in the kernel or brought in by at most `n` steps from it.
pub open spec fn derived_within(rules: Seq<Rule>, kernel: Set<LrItem>, item: LrItem, n: nat) -> bool
    decreases n,
{
    if n == 0 {
        kernel.contains(item)
    } else {
        exists|a: LrItem| #[trigger]
            predicts(rules, a, item) && derived_within(rules, kernel, a, (n - 1) as nat)
    }
}

/// The closure of a kernel: the least set that holds the kernel and, with an
/// item, every item that it brings in.
pub open spec fn closure_of(rules: Seq<Rule>, kernel: Set<LrItem>) -> Set<LrItem> {
    Set::new(|item: LrItem| exists|n: nat| derived_within(rules, kernel, item, n))
}

/// The closure holds the kernel.
pub proof fn lemma_closure_holds_kernel(rules: Seq<Rule>, kernel: Set<LrItem>)
    ensures
        kernel.subset_of(closure_of(rules, kernel)),
{
    assert forall|item: LrItem| kernel.contains(item) implies closure_of(rules, kernel).contains(
        item,
    ) by {
        assert(derived_within(rules, kernel, item, 0));
    }
}

/// The closure holds what its items bring in.
pub proof fn lemma_closure_step(rules: Seq<Rule>, kernel: Set<LrItem>, a: LrItem, b: LrItem)
    requires
        closure_of(rules, kernel).contains(a),
        predicts(rules, a, b),
    ensures
        closure_of(rules, kernel).contains(b),
{
    let n = choose|n: nat| derived_within(rules, kernel, a, n);
    assert(derived_within(rules, kernel, a, ((n + 1) - 1) as nat));
    assert(derived_within(rules, kernel, b, (n + 1) as nat));
}

/// A set that holds the kernel and what its items bring in holds the closure.
pub proof fn lemma_closure_least(
    rules: Seq<Rule>,
    kernel: Set<LrItem>,
    set: Set<LrItem>,
    item: LrItem,
    n: nat,
)
    requires
        kernel.subset_of(set),
        forall|a: LrItem, b: LrItem| set.contains(a) && #[trigger] predicts(rules, a, b) ==>
            set.contains(b),
        derived_within(rules, kernel, item, n),
    ensures
        set.contains(item),
    decreases n,
{
    if n > 0 {
        let a = choose|a: LrItem| #[trigger]
            predicts(rules, a, item) && derived_within(rules, kernel, a, (n - 1) as nat);
        lemma_closure_least(rules, kernel, set, a, (n - 1) as nat);
    }
}

/// An item of the closure is in the kernel, or an item of the closure brings
/// it in.
pub proof fn lemma_closure_origin(rules: Seq<Rule>, kernel: Set<LrItem>, item: LrItem)
    requires
        closure_of(rules, kernel).contains(item),
    ensures
        kernel.contains(item) || exists|a: LrItem| #[trigger]
            predicts(rules, a, item) && closure_of(rules, kernel).contains(a),
{
    let n = choose|n: nat| derived_within(rules, kernel, item, n);
    if n > 0 {
        let a = choose|a: LrItem| #[trigger]
            predicts(rules, a, item) && derived_within(rules, kernel, a, (n - 1) as nat);
        assert(closure_of(rules, kernel).contains(a));
    }
}

/// The item with the dot one symbol further.
pub open spec fn advanced(item: LrItem) -> LrItem {
    LrItem {
        production_id: item.production_id,
        dot_position: (item.dot_position + 1) as usize,
        lookahead: item.lookahead,
    }
}

/// The item with the dot one symbol back.
pub open spec fn retreated(item: LrItem) -> LrItem {
    LrItem {
        production_id: item.production_id,
        dot_position: (item.dot_position - 1) as usize,
        lookahead: item.lookahead,
    }
}

/// The kernel that a set of items gives on a symbol: its items that have the
/// symbol after the dot, with the dot moved over it.
pub open spec fn kernel_of(rules: Seq<Rule>, items: Set<LrItem>, x: Symbol) -> Set<LrItem> {
    Set::new(
        |k: LrItem|
            k.dot_position > 0 && items.contains(retreated(k)) && after_dot(rules, retreated(k))
                == Some(x),
    )
}

/// Some item of the set has the symbol after its dot.
pub open spec fn has_edge(rules: Seq<Rule>, items: Set<LrItem>, x: Symbol) -> bool {
    exists|k: LrItem| kernel_of(rules, items, x).contains(k)
}

/// The state that a set of items leads to on a symbol.
pub open spec fn target_of(rules: Seq<Rule>, items: Set<LrItem>, x: Symbol) -> Set<LrItem> {
    closure_of(rules, kernel_of(rules, items, x))
}

/// An item with the dot behind a symbol lies in the closure of a kernel only
/// as an item of the kernel.
pub proof fn lemma_closure_dot(rules: Seq<Rule>, kernel: Set<LrItem>, item: LrItem)
    requires
        closure_of(rules, kernel).contains(item),
        item.dot_position > 0,
    ensures
        kernel.contains(item),
{
    lemma_closure_origin(rules, kernel, item);
}

// ---------------------------------------------------------------------------
// The canonical collection
// ---------------------------------------------------------------------------
/// The edge `(s1, x1)` comes before the edge `(s2, x2)`: edges are taken state
/// by state and, within a state, symbol by symbol.
pub open spec fn edge_before(s1: int, x1: int, s2: int, x2: int) -> bool {
    s1 < s2 || (s1 == s2 && x1 < x2)
}

/// The state `k` is first reached by the edge from the state `s` on the
/// symbol number `x`: that edge leads to it, and no edge before it does.
pub open spec fn discovers(rules: Seq<Rule>, states: Seq<Set<LrItem>>, s: int, x: int,
    k: int) -> bool {
    &&& 0 <= s < k < states.len()
    &&& 0 <= x < 12
    &&& has_edge(rules, states[s], Symbol::at_ordinal(x))
    &&& target_of(rules, states[s], Symbol::at_ordinal(x)) == states[k]
    &&& forall|s2: int, x2: int|
        #![trigger target_of(rules, states[s2], Symbol::at_ordinal(x2))]
        0 <= s2 <= s && 0 <= x2 < 12 && edge_before(s2, x2, s, x) && has_edge(
            rules,
            states[s2],
            Symbol::at_ordinal(x2),
        ) ==> target_of(rules, states[s2], Symbol::at_ordinal(x2)) != states[k]
}

/// Some edge first reaches the state `k`.
pub open spec fn discovered(rules: Seq<Rule>, states: Seq<Set<LrItem>>, k: int) -> bool {
    exists|s: int, x: int| #[trigger] discovers(rules, states, s, x, k)
}

/// The states are the canonical collection of the rules, in the order of
/// their discovery: the first is the closure of the initial item, no two are
/// equal, every edge leads to one of them, and each of the others is first
/// reached by an edge from an earlier state, a later state by a later edge.
pub open spec fn canonical(rules: Seq<Rule>, states: Seq<Set<LrItem>>) -> bool {
    &&& states.len() > 0
    &&& states[0] == closure_of(rules, set![initial_item()])
    &&& forall|i: int, j: int| 0 <= i < j < states.len() ==>
        #[trigger] states[i] != #[trigger] states[j]
    &&& forall|s: int, x: int|
        #![trigger target_of(rules, states[s], Symbol::at_ordinal(x))]
        0 <= s < states.len() && 0 <= x < 12 && has_edge(rules, states[s], Symbol::at_ordinal(x))
            ==> exists|k: int|
            0 <= k < states.len() && #[trigger] states[k] == target_of(
                rules,
                states[s],
                Symbol::at_ordinal(x),
            )
    &&& forall|k: int| 1 <= k < states.len() ==> #[trigger] discovered(rules, states, k)
    &&& forall|k1: int, k2: int, s1: int, x1: int, s2: int, x2: int|
        1 <= k1 < k2 < states.len() && #[trigger] discovers(rules, states, s1, x1, k1)
            && #[trigger] discovers(rules, states, s2, x2, k2) ==> edge_before(s1, x1, s2, x2)
}

/// Two canonical collections of the same rules agree as far as both reach.
proof fn lemma_canonical_prefix(rules: Seq<Rule>, a: Seq<Set<LrItem>>, b: Seq<Set<LrItem>>, n: int)
    requires
        canonical(rules, a),
        canonical(rules, b),
        0 <= n <= a.len(),
        n <= b.len(),
    ensures
        forall|k: int| 0 <= k < n ==> a[k] == b[k],
    decreases n,
{
    if n >= 2 {
        lemma_canonical_prefix(rules, a, b, n - 1);
        let k = n - 1;
        assert(discovered(rules, a, k));
        assert(discovered(rules, b, k));
        let (sa, xa) = choose|s: int, x: int| #[trigger] discovers(rules, a, s, x, k);
        let (sb, xb) = choose|s: int, x: int| #[trigger] discovers(rules, b, s, x, k);
        assert(a[sa] == b[sa]);
        assert(a[sb] == b[sb]);
        if edge_before(sb, xb, sa, xa) {
            lemma_canonical_next(rules, b, a, k, sb, xb, sa, xa);
        } else {
            lemma_canonical_next(rules, a, b, k, sa, xa, sb, xb);
        }
    } else if n == 1 {
    }
}

/// One step of the comparison: where both collections agree below `k` and
/// the edge that discovers `a[k]` is not after the one that discovers `b[k]`,
/// the two are the same state.
proof fn lemma_canonical_next(
    rules: Seq<Rule>,
    a: Seq<Set<LrItem>>,
    b: Seq<Set<LrItem>>,
    k: int,
    sa: int,
    xa: int,
    sb: int,
    xb: int,
)
    requires
        canonical(rules, a),
        canonical(rules, b),
        1 <= k < a.len(),
        k < b.len(),
        forall|i: int| 0 <= i < k ==> a[i] == b[i],
        discovers(rules, a, sa, xa, k),
        discovers(rules, b, sb, xb, k),
        !edge_before(sb, xb, sa, xa),
    ensures
        a[k] == b[k],
{
    // The edge that discovers a[k] is an edge of b too, and leads to a state of b.
    assert(a[sa] == b[sa]);
    let x = Symbol::at_ordinal(xa);
    assert(target_of(rules, b[sa], x) == a[k]);
    let m = choose|m: int| 0 <= m < b.len() && #[trigger] b[m] == target_of(rules, b[sa], x);
    if m < k {
        assert(a[m] == b[m]);
        assert(a[m] != a[k]);
    } else if m > k {
        assert(discovered(rules, b, m));
        let (sm, xm) = choose|s: int, x: int| #[trigger] discovers(rules, b, s, x, m);
        assert(edge_before(sb, xb, sm, xm));
        assert(edge_before(sa, xa, sm, xm));
        assert(target_of(rules, b[sa], Symbol::at_ordinal(xa)) != b[m]);
    }
}

/// The canonical collection of a list of rules is unique.
pub proof fn lemma_canonical_unique(rules: Seq<Rule>, a: Seq<Set<LrItem>>, b: Seq<Set<LrItem>>)
    requires
        canonical(rules, a),
        canonical(rules, b),
    ensures
        a == b,
{
    if a.len() <= b.len() {
        lemma_canonical_prefix(rules, a, b, a.len() as int);
        lemma_canonical_longer(rules, a, b);
    } else {
        lemma_canonical_prefix(rules, a, b, b.len() as int);
        lemma_canonical_longer(rules, b, a);
    }
    assert(a =~= b);
}

/// A canonical collection is not a proper beginning of another.
proof fn lemma_canonical_longer(rules: Seq<Rule>, a: Seq<Set<LrItem>>, b: Seq<Set<LrItem>>)
    requires
        canonical(rules, a),
        canonical(rules, b),
        a.len() <= b.len(),
        forall|i: int| 0 <= i < a.len() ==> a[i] == b[i],
    ensures
        a.len() == b.len(),
{
    if a.len() < b.len() {
        let n = a.len() as int;
        assert(discovered(rules, b, n));
        let (s, x) = choose|s: int, x: int| #[trigger] discovers(rules, b, s, x, n);
        assert(a[s] == b[s]);
        let sym = Symbol::at_ordinal(x);
        assert(target_of(rules, a[s], sym) == b[n]);
        let m = choose|m: int| 0 <= m < a.len() && #[trigger] a[m] == target_of(rules, a[s], sym);
        assert(a[m] == b[m]);
        assert(b[m] != b[n]);
    }
}

/// At most one edge discovers a state.
pub proof fn lemma_discovers_unique(
    rules: Seq<Rule>,
    states: Seq<Set<LrItem>>,
    s1: int,
    x1: int,
    s2: int,
    x2: int,
    k: int,
)
    requires
        discovers(rules, states, s1, x1, k),
        discovers(rules, states, s2, x2, k),
    ensures
        s1 == s2,
        x1 == x2,
{
    if edge_before(s1, x1, s2, x2) {
        assert(target_of(rules, states[s1], Symbol::at_ordinal(x1)) != states[k]);
    }
    if edge_before(s2, x2, s1, x1) {
        assert(target_of(rules, states[s2], Symbol::at_ordinal(x2)) != states[k]);
    }
}

/// Which edge discovers a state does not depend on the states behind it.
pub proof fn lemma_discovers_stable(
    rules: Seq<Rule>,
    states: Seq<Set<LrItem>>,
    more: Set<LrItem>,
    s: int,
    x: int,
    k: int,
)
    requires
        k < states.len(),
    ensures
        discovers(rules, states, s, x, k) == discovers(rules, states.push(more), s, x, k),
{
    let longer = states.push(more);
    if discovers(rules, states, s, x, k) {
        assert(longer[s] == states[s]);
        assert(longer[k] == states[k]);
        assert forall|s2: int, x2: int|
            #![trigger target_of(rules, longer[s2], Symbol::at_ordinal(x2))]
            0 <= s2 <= s && 0 <= x2 < 12 && edge_before(s2, x2, s, x) && has_edge(
                rules,
                longer[s2],
                Symbol::at_ordinal(x2),
            ) implies target_of(rules, longer[s2], Symbol::at_ordinal(x2)) != longer[k] by {
            assert(longer[s2] == states[s2]);
            assert(target_of(rules, states[s2], Symbol::at_ordinal(x2)) != states[k]);
        }
    }
    if discovers(rules, longer, s, x, k) {
        assert(longer[s] == states[s]);
        assert(longer[k] == states[k]);
        assert forall|s2: int, x2: int|
            #![trigger target_of(rules, states[s2], Symbol::at_ordinal(x2))]
            0 <= s2 <= s && 0 <= x2 < 12 && edge_before(s2, x2, s, x) && has_edge(
                rules,
                states[s2],
                Symbol::at_ordinal(x2),
            ) implies target_of(rules, states[s2], Symbol::at_ordinal(x2)) != states[k] by {
            assert(longer[s2] == states[s2]);
            assert(target_of(rules, longer[s2], Symbol::at_ordinal(x2)) != longer[k]);
        }
    }
}

// ---------------------------------------------------------------------------
// Building the collection edge by edge
// ---------------------------------------------------------------------------
/// The state `k` was discovered by an edge before `(cur, x)`, and `kernels`
/// holds the kernel that this edge gave.
pub open spec fn discovered_before(
    rules: Seq<Rule>,
    states: Seq<Set<LrItem>>,
    kernels: Seq<Set<LrItem>>,
    k: int,
    cur: int,
    x: int,
) -> bool {
    exists|s: int, y: int|
        #![trigger discovers(rules, states, s, y, k)]
        discovers(rules, states, s, y, k) && edge_before(s, y, cur, x) && kernels[k] == kernel_of(
            rules,
            states[s],
            Symbol::at_ordinal(y),
        )
}

/// What is recorded for the edge from `s` on the symbol number `y` while the
/// edges before `(cur, x)` have been followed: the state it leads to if it
/// has been followed, nothing yet if not.
pub open spec fn edge_state(
    rules: Seq<Rule>,
    states: Seq<Set<LrItem>>,
    s: int,
    y: int,
    to: Option<usize>,
    cur: int,
    x: int,
) -> bool {
    if edge_before(s, y, cur, x) {
        edge_justified(rules, states, s, Symbol::at_ordinal(y), to)
    } else {
        to is None
    }
}

/// The collection as it stands while the edges before `(cur, x)` have been
/// followed, with the kernels of the states and what is recorded for the
/// edges (one row of twelve for each state).
pub open spec fn explored(
    rules: Seq<Rule>,
    states: Seq<Set<LrItem>>,
    kernels: Seq<Set<LrItem>>,
    edges: Seq<Seq<Option<usize>>>,
    cur: int,
    x: int,
) -> bool {
    &&& states.len() > 0
    &&& kernels.len() == states.len()
    &&& edges.len() == states.len()
    &&& 0 <= cur <= states.len()
    &&& 0 <= x <= 12
    &&& states[0] == closure_of(rules, set![initial_item()])
    &&& kernels[0] == set![initial_item()]
    &&& forall|i: int, j: int| 0 <= i < j < states.len() ==>
        #[trigger] states[i] != #[trigger] states[j]
    &&& forall|k: int|
        1 <= k < states.len() ==> #[trigger] discovered_before(rules, states, kernels, k, cur, x)
    &&& forall|k1: int, k2: int, s1: int, x1: int, s2: int, x2: int|
        1 <= k1 < k2 < states.len() && #[trigger] discovers(rules, states, s1, x1, k1)
            && #[trigger] discovers(rules, states, s2, x2, k2) ==> edge_before(s1, x1, s2, x2)
    &&& forall|s: int| 0 <= s < states.len() ==> (#[trigger] edges[s]).len() == 12
    &&& forall|s: int, y: int|
        0 <= s < states.len() && 0 <= y < 12 ==> edge_state(
            rules,
            states,
            s,
            y,
            #[trigger] edges[s][y],
            cur,
            x,
        )
}

/// The collection at the start: the closure of the initial item, and no edge
/// followed.
pub proof fn lemma_explored_start(rules: Seq<Rule>, first: Set<LrItem>, row: Seq<Option<usize>>)
    requires
        first == closure_of(rules, set![initial_item()]),
        row.len() == 12,
        forall|y: int| 0 <= y < 12 ==> (#[trigger] row[y]) is None,
    ensures
        explored(rules, seq![first], seq![set![initial_item()]], seq![row], 0, 0),
{
}

/// Following an edge that does not exist changes nothing.
pub proof fn lemma_explored_no_edge(
    rules: Seq<Rule>,
    states: Seq<Set<LrItem>>,
    kernels: Seq<Set<LrItem>>,
    edges: Seq<Seq<Option<usize>>>,
    cur: int,
    x: int,
)
    requires
        explored(rules, states, kernels, edges, cur, x),
        cur < states.len(),
        x < 12,
        !has_edge(rules, states[cur], Symbol::at_ordinal(x)),
    ensures
        explored(rules, states, kernels, edges, cur, x + 1),
{
    assert forall|k: int| 1 <= k < states.len() implies #[trigger] discovered_before(
        rules,
        states,
        kernels,
        k,
        cur,
        x + 1,
    ) by {
        assert(discovered_before(rules, states, kernels, k, cur, x));
        let (s, y) = choose|s: int, y: int|
            #![trigger discovers(rules, states, s, y, k)]
            discovers(rules, states, s, y, k) && edge_before(s, y, cur, x) && kernels[k]
                == kernel_of(rules, states[s], Symbol::at_ordinal(y));
        assert(discovers(rules, states, s, y, k) && edge_before(s, y, cur, x + 1));
    }
    assert forall|s: int, y: int| 0 <= s < states.len() && 0 <= y < 12 implies edge_state(
        rules,
        states,
        s,
        y,
        #[trigger] edges[s][y],
        cur,
        x + 1,
    ) by {
        assert(edge_state(rules, states, s, y, edges[s][y], cur, x));
    }
}

/// Following an edge to a state that is already there records that state.
pub proof fn lemma_explored_found(
    rules: Seq<Rule>,
    states: Seq<Set<LrItem>>,
    kernels: Seq<Set<LrItem>>,
    edges: Seq<Seq<Option<usize>>>,
    cur: int,
    x: int,
    k: usize,
    after: Seq<Seq<Option<usize>>>,
)
    requires
        explored(rules, states, kernels, edges, cur, x),
        cur < states.len(),
        x < 12,
        has_edge(rules, states[cur], Symbol::at_ordinal(x)),
        k < states.len(),
        states[k as int] == target_of(rules, states[cur], Symbol::at_ordinal(x)),
        after == edges.update(cur, edges[cur].update(x, Some(k))),
    ensures
        explored(rules, states, kernels, after, cur, x + 1),
{
    assert forall|k: int| 1 <= k < states.len() implies #[trigger] discovered_before(
        rules,
        states,
        kernels,
        k,
        cur,
        x + 1,
    ) by {
        assert(discovered_before(rules, states, kernels, k, cur, x));
        let (s, y) = choose|s: int, y: int|
            #![trigger discovers(rules, states, s, y, k)]
            discovers(rules, states, s, y, k) && edge_before(s, y, cur, x) && kernels[k]
                == kernel_of(rules, states[s], Symbol::at_ordinal(y));
        assert(discovers(rules, states, s, y, k) && edge_before(s, y, cur, x + 1));
    }
    assert forall|s: int| 0 <= s < states.len() implies (#[trigger] after[s]).len() == 12 by {
        assert(edges[s].len() == 12);
    }
    assert forall|s: int, y: int| 0 <= s < states.len() && 0 <= y < 12 implies edge_state(
        rules,
        states,
        s,
        y,
        #[trigger] after[s][y],
        cur,
        x + 1,
    ) by {
        assert(edges[s].len() == 12);
        assert(edge_state(rules, states, s, y, edges[s][y], cur, x));
    }
}

/// Following an edge to a state that is not there yet adds that state, with
/// nothing recorded for its own edges.
pub proof fn lemma_explored_new(
    rules: Seq<Rule>,
    states: Seq<Set<LrItem>>,
    kernels: Seq<Set<LrItem>>,
    edges: Seq<Seq<Option<usize>>>,
    cur: int,
    x: int,
    after: Seq<Seq<Option<usize>>>,
)
    requires
        explored(rules, states, kernels, edges, cur, x),
        cur < states.len(),
        x < 12,
        has_edge(rules, states[cur], Symbol::at_ordinal(x)),
        forall|k: int|
            0 <= k < states.len() ==> #[trigger] states[k] != target_of(
                rules,
                states[cur],
                Symbol::at_ordinal(x),
            ),
        states.len() <= usize::MAX,
        after.len() == states.len() + 1,
        after[cur] == edges[cur].update(x, Some(states.len() as usize)),
        forall|s: int| 0 <= s < states.len() && s != cur ==> #[trigger] after[s] == edges[s],
        after[states.len() as int].len() == 12,
        forall|y: int| 0 <= y < 12 ==> (#[trigger] after[states.len() as int][y]) is None,
    ensures
        explored(
            rules,
            states.push(target_of(rules, states[cur], Symbol::at_ordinal(x))),
            kernels.push(kernel_of(rules, states[cur], Symbol::at_ordinal(x))),
            after,
            cur,
            x + 1,
        ),
{
    let sym = Symbol::at_ordinal(x);
    let target = target_of(rules, states[cur], sym);
    let n = states.len() as int;
    let longer = states.push(target);
    let more = kernels.push(kernel_of(rules, states[cur], sym));

    assert forall|s2: int, x2: int|
        #![trigger target_of(rules, longer[s2], Symbol::at_ordinal(x2))]
        0 <= s2 <= cur && 0 <= x2 < 12 && edge_before(s2, x2, cur, x) && has_edge(
            rules,
            longer[s2],
            Symbol::at_ordinal(x2),
        ) implies target_of(rules, longer[s2], Symbol::at_ordinal(x2)) != longer[n] by {
        assert(longer[s2] == states[s2]);
        assert(edge_state(rules, states, s2, x2, edges[s2][x2], cur, x));
        let k = edges[s2][x2]->Some_0;
        assert(states[k as int] != target);
    }
    assert(longer[cur] == states[cur]);
    assert(discovers(rules, longer, cur, x, n));

    assert forall|k: int| 1 <= k < longer.len() implies #[trigger] discovered_before(
        rules,
        longer,
        more,
        k,
        cur,
        x + 1,
    ) by {
        if k < n {
            assert(discovered_before(rules, states, kernels, k, cur, x));
            let (s, y) = choose|s: int, y: int|
                #![trigger discovers(rules, states, s, y, k)]
                discovers(rules, states, s, y, k) && edge_before(s, y, cur, x) && kernels[k]
                    == kernel_of(rules, states[s], Symbol::at_ordinal(y));
            lemma_discovers_stable(rules, states, target, s, y, k);
            assert(longer[s] == states[s]);
            assert(discovers(rules, longer, s, y, k) && edge_before(s, y, cur, x + 1));
        } else {
            assert(discovers(rules, longer, cur, x, k) && edge_before(cur, x, cur, x + 1));
        }
    }
    assert forall|k1: int, k2: int, s1: int, x1: int, s2: int, x2: int|
        1 <= k1 < k2 < longer.len() && #[trigger] discovers(rules, longer, s1, x1, k1)
            && #[trigger] discovers(rules, longer, s2, x2, k2) implies edge_before(
        s1,
        x1,
        s2,
        x2,
    ) by {
        lemma_discovers_stable(rules, states, target, s1, x1, k1);
        if k2 < n {
            lemma_discovers_stable(rules, states, target, s2, x2, k2);
        } else {
            lemma_discovers_unique(rules, longer, s2, x2, cur, x, n);
            assert(discovered_before(rules, states, kernels, k1, cur, x));
            let (s, y) = choose|s: int, y: int|
                #![trigger discovers(rules, states, s, y, k1)]
                discovers(rules, states, s, y, k1) && edge_before(s, y, cur, x) && kernels[k1]
                    == kernel_of(rules, states[s], Symbol::at_ordinal(y));
            lemma_discovers_unique(rules, states, s1, x1, s, y, k1);
        }
    }
    assert forall|s: int| 0 <= s < longer.len() implies (#[trigger] after[s]).len() == 12 by {
        if s < n {
            assert(edges[s].len() == 12);
        }
    }
    assert forall|s: int, y: int| 0 <= s < longer.len() && 0 <= y < 12 implies edge_state(
        rules,
        longer,
        s,
        y,
        #[trigger] after[s][y],
        cur,
        x + 1,
    ) by {
        if s < n {
            assert(edges[s].len() == 12);
            assert(edge_state(rules, states, s, y, edges[s][y], cur, x));
            assert(longer[s] == states[s]);
            if edges[s][y] is Some {
                let k = edges[s][y]->Some_0;
                if edge_before(s, y, cur, x) {
                    assert(longer[k as int] == states[k as int]);
                }
            }
            if s == cur && y == x {
                assert(longer[n] == target);
            }
        }
    }
    assert forall|i: int, j: int| 0 <= i < j < longer.len() implies #[trigger] longer[i]
        != #[trigger] longer[j] by {
        if j < n {
            assert(states[i] != states[j]);
        } else {
            assert(states[i] != target);
        }
    }
}

/// When the edges of a state have been followed, the next state's come.
pub proof fn lemma_explored_next(
    rules: Seq<Rule>,
    states: Seq<Set<LrItem>>,
    kernels: Seq<Set<LrItem>>,
    edges: Seq<Seq<Option<usize>>>,
    cur: int,
)
    requires
        explored(rules, states, kernels, edges, cur, 12),
        cur < states.len(),
    ensures
        explored(rules, states, kernels, edges, cur + 1, 0),
{
    assert forall|k: int| 1 <= k < states.len() implies #[trigger] discovered_before(
        rules,
        states,
        kernels,
        k,
        cur + 1,
        0,
    ) by {
        assert(discovered_before(rules, states, kernels, k, cur, 12));
        let (s, y) = choose|s: int, y: int|
            #![trigger discovers(rules, states, s, y, k)]
            discovers(rules, states, s, y, k) && edge_before(s, y, cur, 12) && kernels[k]
                == kernel_of(rules, states[s], Symbol::at_ordinal(y));
        assert(discovers(rules, states, s, y, k) && edge_before(s, y, cur + 1, 0));
    }
    assert forall|s: int, y: int| 0 <= s < states.len() && 0 <= y < 12 implies edge_state(
        rules,
        states,
        s,
        y,
        #[trigger] edges[s][y],
        cur + 1,
        0,
    ) by {
        assert(edge_state(rules, states, s, y, edges[s][y], cur, 12));
    }
}

/// When the edges of every state have been followed, the states are the
/// canonical collection, and what is recorded for an edge is the state that
/// it leads to.
pub proof fn lemma_explored_end(
    rules: Seq<Rule>,
    states: Seq<Set<LrItem>>,
    kernels: Seq<Set<LrItem>>,
    edges: Seq<Seq<Option<usize>>>,
)
    requires
        explored(rules, states, kernels, edges, states.len() as int, 0),
    ensures
        canonical(rules, states),
        forall|s: int, y: int|
            0 <= s < states.len() && 0 <= y < 12 ==> edge_justified(
                rules,
                states,
                s,
                Symbol::at_ordinal(y),
                #[trigger] edges[s][y],
            ),
{
    let n = states.len() as int;
    assert forall|s: int, y: int| 0 <= s < states.len() && 0 <= y < 12 implies edge_justified(
        rules,
        states,
        s,
        Symbol::at_ordinal(y),
        #[trigger] edges[s][y],
    ) by {
        assert(edge_state(rules, states, s, y, edges[s][y], n, 0));
    }
    assert forall|s: int, x: int|
        #![trigger target_of(rules, states[s], Symbol::at_ordinal(x))]
        0 <= s < states.len() && 0 <= x < 12 && has_edge(
            rules,
            states[s],
            Symbol::at_ordinal(x),
        ) implies exists|k: int|
        0 <= k < states.len() && #[trigger] states[k] == target_of(
            rules,
            states[s],
            Symbol::at_ordinal(x),
        ) by {
        assert(edge_justified(rules, states, s, Symbol::at_ordinal(x), edges[s][x]));
        let k = edges[s][x]->Some_0 as int;
        assert(states[k] == target_of(rules, states[s], Symbol::at_ordinal(x)));
    }
    assert forall|k: int| 1 <= k < states.len() implies #[trigger] discovered(rules, states, k) by {
        assert(discovered_before(rules, states, kernels, k, n, 0));
    }
}

// ---------------------------------------------------------------------------
// What the tables hold
// ---------------------------------------------------------------------------
/// What a table may hold for an edge: the number of the state that the edge
/// leads to, or nothing where there is no such edge.
pub open spec fn edge_justified(
    rules: Seq<Rule>,
    states: Seq<Set<LrItem>>,
    s: int,
    x: Symbol,
    to: Option<usize>,
) -> bool {
    match to {
        Some(k) => has_edge(rules, states[s], x) && k < states.len() && states[k as int]
            == target_of(rules, states[s], x),
        None => !has_edge(rules, states[s], x),
    }
}

/// The rule `p`, other than the rule 0, is read to its end in the set, with
/// the lookahead `t`.
pub open spec fn reducible(rules: Seq<Rule>, items: Set<LrItem>, p: int, t: TokenType) -> bool {
    &&& 0 < p < rules.len()
    &&& items.contains(
        LrItem {
            production_id: p as usize,
            dot_position: rules[p].rhs.len() as usize,
            lookahead: t,
        },
    )
}

/// The rule 0 is read to its end in the set, with the lookahead `t`.
pub open spec fn acceptable(rules: Seq<Rule>, items: Set<LrItem>, t: TokenType) -> bool {
    items.contains(
        LrItem { production_id: 0, dot_position: rules[0].rhs.len() as usize, lookahead: t },
    )
}

/// `reducible`, for the items that come before the place `(p, l)` when the
/// finished items are listed by rule, then by lookahead.
pub open spec fn reducible_before(
    rules: Seq<Rule>,
    items: Set<LrItem>,
    q: int,
    t: TokenType,
    p: int,
    l: int,
) -> bool {
    reducible(rules, items, q, t) && (q < p || (q == p && t.ordinal() < l))
}

/// `acceptable`, for the items that come before the place `(p, l)`.
pub open spec fn acceptable_before(
    rules: Seq<Rule>,
    items: Set<LrItem>,
    t: TokenType,
    p: int,
    l: int,
) -> bool {
    acceptable(rules, items, t) && (0 < p || (0 == p && t.ordinal() < l))
}

/// What the action table holds for a state and a terminal when the finished
/// items before the place `(p, l)` have been entered: the reduction by the
/// last such rule that has the terminal as lookahead; else, at the end of
/// input, acceptance where the rule 0 is finished; else the shift along the
/// edge, or nothing.
pub open spec fn action_justified_before(
    rules: Seq<Rule>,
    states: Seq<Set<LrItem>>,
    s: int,
    t: TokenType,
    a: Option<Action>,
    p: int,
    l: int,
) -> bool {
    match a {
        Some(Action::Reduce(r)) => {
            &&& reducible_before(rules, states[s], r as int, t, p, l)
            &&& forall|q: int| #[trigger] reducible_before(rules, states[s], q, t, p, l) ==> q <= r
        },
        Some(Action::Accept) => {
            &&& t == TokenType::Eof
            &&& exists|u: TokenType| #[trigger] acceptable_before(rules, states[s], u, p, l)
            &&& forall|q: int| !#[trigger] reducible_before(rules, states[s], q, t, p, l)
        },
        Some(Action::Shift(k)) => {
            &&& forall|q: int| !#[trigger] reducible_before(rules, states[s], q, t, p, l)
            &&& !(t == TokenType::Eof && exists|u: TokenType| #[trigger]
                acceptable_before(rules, states[s], u, p, l))
            &&& edge_justified(rules, states, s, Symbol::Terminal(t), Some(k))
        },
        None => {
            &&& forall|q: int| !#[trigger] reducible_before(rules, states[s], q, t, p, l)
            &&& !(t == TokenType::Eof && exists|u: TokenType| #[trigger]
                acceptable_before(rules, states[s], u, p, l))
            &&& edge_justified(rules, states, s, Symbol::Terminal(t), None)
        },
    }
}

/// What the finished action table holds for a state and a terminal: the
/// reduction by the highest-numbered rule that is read to its end with the
/// terminal as lookahead; else, at the end of input, acceptance where the rule
/// 0 is read to its end; else the shift along the edge on the terminal; else
/// nothing. A later entry replaces an earlier one in the same place.
pub open spec fn action_justified(
    rules: Seq<Rule>,
    states: Seq<Set<LrItem>>,
    s: int,
    t: TokenType,
    a: Option<Action>,
) -> bool {
    match a {
        Some(Action::Reduce(r)) => {
            &&& reducible(rules, states[s], r as int, t)
            &&& forall|q: int| #[trigger] reducible(rules, states[s], q, t) ==> q <= r
        },
        Some(Action::Accept) => {
            &&& t == TokenType::Eof
            &&& exists|u: TokenType| #[trigger] acceptable(rules, states[s], u)
            &&& forall|q: int| !#[trigger] reducible(rules, states[s], q, t)
        },
        Some(Action::Shift(k)) => {
            &&& forall|q: int| !#[trigger] reducible(rules, states[s], q, t)
            &&& !(t == TokenType::Eof && exists|u: TokenType| #[trigger]
                acceptable(rules, states[s], u))
            &&& edge_justified(rules, states, s, Symbol::Terminal(t), Some(k))
        },
        None => {
            &&& forall|q: int| !#[trigger] reducible(rules, states[s], q, t)
            &&& !(t == TokenType::Eof && exists|u: TokenType| #[trigger]
                acceptable(rules, states[s], u))
            &&& edge_justified(rules, states, s, Symbol::Terminal(t), None)
        },
    }
}

/// Once every finished item has been entered, the table holds what the
/// finished table holds.
pub proof fn lemma_action_justified_at_end(
    rules: Seq<Rule>,
    states: Seq<Set<LrItem>>,
    s: int,
    t: TokenType,
    a: Option<Action>,
)
    requires
        rules.len() > 0,
        action_justified_before(rules, states, s, t, a, rules.len() as int, 0),
    ensures
        action_justified(rules, states, s, t, a),
{
    let n = rules.len() as int;
    assert forall|q: int| reducible(rules, states[s], q, t) == reducible_before(
        rules,
        states[s],
        q,
        t,
        n,
        0,
    ) by {}
    assert forall|u: TokenType| acceptable(rules, states[s], u) == acceptable_before(
        rules,
        states[s],
        u,
        n,
        0,
    ) by {}
    match a {
        Some(Action::Accept) => {
            let u = choose|u: TokenType| #[trigger] acceptable_before(rules, states[s], u, n, 0);
            assert(acceptable(rules, states[s], u));
        },
        Some(Action::Shift(k)) => {
            if exists|u: TokenType| #[trigger] acceptable(rules, states[s], u) {
                let u = choose|u: TokenType| #[trigger] acceptable(rules, states[s], u);
                assert(acceptable_before(rules, states[s], u, n, 0));
            }
        },
        None => {
            if exists|u: TokenType| #[trigger] acceptable(rules, states[s], u) {
                let u = choose|u: TokenType| #[trigger] acceptable(rules, states[s], u);
                assert(acceptable_before(rules, states[s], u, n, 0));
            }
        },
        _ => {},
    }
}

/// The finished tables are determined by the rules and the states: no place
/// can hold two different entries.
pub proof fn lemma_action_justified_unique(
    rules: Seq<Rule>,
    states: Seq<Set<LrItem>>,
    s: int,
    t: TokenType,
    a: Option<Action>,
    b: Option<Action>,
)
    requires
        forall|i: int, j: int| 0 <= i < j < states.len() ==>
            #[trigger] states[i] != #[trigger] states[j],
        action_justified(rules, states, s, t, a),
        action_justified(rules, states, s, t, b),
    ensures
        a == b,
{
    match (a, b) {
        (Some(Action::Reduce(r1)), Some(Action::Reduce(r2))) => {
            assert(reducible(rules, states[s], r1 as int, t));
            assert(reducible(rules, states[s], r2 as int, t));
        },
        (Some(Action::Shift(k1)), Some(Action::Shift(k2))) => {
            if k1 != k2 {
                if k1 < k2 {
                    assert(states[k1 as int] != states[k2 as int]);
                } else {
                    assert(states[k2 as int] != states[k1 as int]);
                }
            }
        },
        (Some(Action::Reduce(r)), _) => {
            assert(reducible(rules, states[s], r as int, t));
        },
        (_, Some(Action::Reduce(r))) => {
            assert(reducible(rules, states[s], r as int, t));
        },
        _ => {},
    }
}

/// The same for the edges.
pub proof fn lemma_edge_justified_unique(
    rules: Seq<Rule>,
    states: Seq<Set<LrItem>>,
    s: int,
    x: Symbol,
    a: Option<usize>,
    b: Option<usize>,
)
    requires
        forall|i: int, j: int| 0 <= i < j < states.len() ==>
            #[trigger] states[i] != #[trigger] states[j],
        edge_justified(rules, states, s, x, a),
        edge_justified(rules, states, s, x, b),
    ensures
        a == b,
{
    if a is Some && b is Some {
        let k1 = a->Some_0;
        let k2 = b->Some_0;
        if k1 < k2 {
            assert(states[k1 as int] != states[k2 as int]);
        } else if k2 < k1 {
            assert(states[k2 as int] != states[k1 as int]);
        }
    }
}

/// The finished item of the rule `p` with the lookahead number `l`.
pub open spec fn finished_item(rules: Seq<Rule>, p: int, l: int) -> LrItem {
    LrItem {
        production_id: p as usize,
        dot_position: rules[p].rhs.len() as usize,
        lookahead: TokenType::at_ordinal(l),
    }
}

/// Before any finished item is entered, the action table holds the shifts.
pub proof fn lemma_action_start(
    rules: Seq<Rule>,
    states: Seq<Set<LrItem>>,
    s: int,
    t: TokenType,
    a: Option<Action>,
    to: Option<usize>,
)
    requires
        edge_justified(rules, states, s, Symbol::Terminal(t), to),
        a is Some ==> a->Some_0 is Shift,
        to == (match a {
            Some(Action::Shift(k)) => Some(k),
            _ => None,
        }),
    ensures
        action_justified_before(rules, states, s, t, a, 0, 0),
{
}

/// A finished item that is not in the state changes nothing.
pub proof fn lemma_action_absent(
    rules: Seq<Rule>,
    states: Seq<Set<LrItem>>,
    s: int,
    t: TokenType,
    a: Option<Action>,
    p: int,
    l: int,
)
    requires
        0 <= p < rules.len(),
        0 <= l < 8,
        rules[p].rhs.len() <= usize::MAX,
        action_justified_before(rules, states, s, t, a, p, l),
        !states[s].contains(finished_item(rules, p, l)),
    ensures
        action_justified_before(rules, states, s, t, a, p, l + 1),
{
    assert forall|q: int|
        reducible_before(rules, states[s], q, t, p, l + 1) == reducible_before(
            rules,
            states[s],
            q,
            t,
            p,
            l,
        ) by {
        if q == p && t.ordinal() == l {
            assert(TokenType::at_ordinal(t.ordinal()) == t);
        }
    }
    assert forall|u: TokenType|
        acceptable_before(rules, states[s], u, p, l + 1) == acceptable_before(
            rules,
            states[s],
            u,
            p,
            l,
        ) by {
        if 0 == p && u.ordinal() == l {
            assert(TokenType::at_ordinal(u.ordinal()) == u);
        }
    }
    lemma_action_same(rules, states, s, t, a, p, l, p, l + 1);
}

/// Where two places have the same finished items before them, the table
/// holds the same.
pub proof fn lemma_action_same(
    rules: Seq<Rule>,
    states: Seq<Set<LrItem>>,
    s: int,
    t: TokenType,
    a: Option<Action>,
    pa: int,
    la: int,
    pb: int,
    lb: int,
)
    requires
        action_justified_before(rules, states, s, t, a, pa, la),
        forall|q: int|
            reducible_before(rules, states[s], q, t, pb, lb) == reducible_before(
                rules,
                states[s],
                q,
                t,
                pa,
                la,
            ),
        t == TokenType::Eof ==> forall|u: TokenType|
            acceptable_before(rules, states[s], u, pb, lb) == acceptable_before(
                rules,
                states[s],
                u,
                pa,
                la,
            ),
    ensures
        action_justified_before(rules, states, s, t, a, pb, lb),
{
    match a {
        Some(Action::Reduce(r)) => {
            assert(reducible_before(rules, states[s], r as int, t, pb, lb));
            assert forall|q: int| #[trigger]
                reducible_before(rules, states[s], q, t, pb, lb) implies q <= r by {
                assert(reducible_before(rules, states[s], q, t, pa, la));
            }
        },
        Some(Action::Accept) => {
            let u = choose|u: TokenType| #[trigger] acceptable_before(rules, states[s], u, pa, la);
            assert(acceptable_before(rules, states[s], u, pb, lb));
            assert forall|q: int| !#[trigger] reducible_before(rules, states[s], q, t, pb, lb) by {
                assert(!reducible_before(rules, states[s], q, t, pa, la));
            }
        },
        _ => {
            assert forall|q: int| !#[trigger] reducible_before(rules, states[s], q, t, pb, lb) by {
                assert(!reducible_before(rules, states[s], q, t, pa, la));
            }
            if t == TokenType::Eof && exists|u: TokenType| #[trigger]
                acceptable_before(rules, states[s], u, pb, lb) {
                let u = choose|u: TokenType| #[trigger]
                    acceptable_before(rules, states[s], u, pb, lb);
                assert(acceptable_before(rules, states[s], u, pa, la));
            }
        },
    }
}

/// A finished item of the state changes nothing in the places where it is
/// not entered.
pub proof fn lemma_action_elsewhere(
    rules: Seq<Rule>,
    states: Seq<Set<LrItem>>,
    s: int,
    t: TokenType,
    a: Option<Action>,
    p: int,
    l: int,
)
    requires
        0 <= p < rules.len(),
        0 <= l < 8,
        action_justified_before(rules, states, s, t, a, p, l),
        p == 0 ==> t != TokenType::Eof,
        p != 0 ==> t.ordinal() != l,
    ensures
        action_justified_before(rules, states, s, t, a, p, l + 1),
{
    lemma_action_same(rules, states, s, t, a, p, l, p, l + 1);
}

/// The finished item of the rule 0 enters acceptance at the end of input.
pub proof fn lemma_action_accept(
    rules: Seq<Rule>,
    states: Seq<Set<LrItem>>,
    s: int,
    a: Option<Action>,
    l: int,
)
    requires
        0 < rules.len(),
        0 <= l < 8,
        rules[0].rhs.len() <= usize::MAX,
        action_justified_before(rules, states, s, TokenType::Eof, a, 0, l),
        states[s].contains(finished_item(rules, 0, l)),
    ensures
        action_justified_before(rules, states, s, TokenType::Eof, Some(Action::Accept), 0, l + 1),
{
    assert(TokenType::at_ordinal(l).ordinal() == l);
    assert(acceptable_before(rules, states[s], TokenType::at_ordinal(l), 0, l + 1));
}

/// The finished item of another rule enters the reduction by that rule at
/// its lookahead.
pub proof fn lemma_action_reduce(
    rules: Seq<Rule>,
    states: Seq<Set<LrItem>>,
    s: int,
    a: Option<Action>,
    p: usize,
    l: int,
)
    requires
        0 < p < rules.len(),
        0 <= l < 8,
        rules[p as int].rhs.len() <= usize::MAX,
        action_justified_before(rules, states, s, TokenType::at_ordinal(l), a, p as int, l),
        states[s].contains(finished_item(rules, p as int, l)),
    ensures
        action_justified_before(
            rules,
            states,
            s,
            TokenType::at_ordinal(l),
            Some(Action::Reduce(p)),
            p as int,
            l + 1,
        ),
{
    assert(TokenType::at_ordinal(l).ordinal() == l);
    assert(reducible_before(rules, states[s], p as int, TokenType::at_ordinal(l), p as int, l + 1));
}

/// When the finished items of a rule have been entered, those of the next
/// rule come.
pub proof fn lemma_action_next_rule(
    rules: Seq<Rule>,
    states: Seq<Set<LrItem>>,
    s: int,
    t: TokenType,
    a: Option<Action>,
    p: int,
)
    requires
        action_justified_before(rules, states, s, t, a, p, 8),
    ensures
        action_justified_before(rules, states, s, t, a, p + 1, 0),
{
    lemma_action_same(rules, states, s, t, a, p, 8, p + 1, 0);
}

// ---------------------------------------------------------------------------
// Paths through the automaton
// ---------------------------------------------------------------------------
/// The states form a path from the first state along the symbols: each
/// symbol leads from its state to the next.
pub open spec fn is_path(
    rules: Seq<Rule>,
    states: Seq<Set<LrItem>>,
    path: Seq<usize>,
    symbols: Seq<Symbol>,
) -> bool {
    &&& path.len() == symbols.len() + 1
    &&& path[0] == 0
    &&& forall|i: int| 0 <= i < path.len() ==> (#[trigger] path[i]) < states.len()
    &&& forall|i: int|
        0 <= i < symbols.len() ==> edge_justified(
            rules,
            states,
            path[i] as int,
            #[trigger] symbols[i],
            Some(path[i + 1]),
        )
}

/// The item with the dot in front.
pub open spec fn at_start(item: LrItem) -> LrItem {
    LrItem { production_id: item.production_id, dot_position: 0, lookahead: item.lookahead }
}

/// Each state is the closure of its kernel, and no kernel but the first
/// holds an item with the dot in front.
pub proof fn lemma_state_is_closure(rules: Seq<Rule>, states: Seq<Set<LrItem>>, k: int) -> (kernel:
    Set<LrItem>)
    requires
        canonical(rules, states),
        0 <= k < states.len(),
    ensures
        states[k] == closure_of(rules, kernel),
        forall|item: LrItem|
            kernel.contains(item) && item.dot_position == 0 ==> k == 0 && item == initial_item(),
{
    if k == 0 {
        set![initial_item()]
    } else {
        assert(discovered(rules, states, k));
        let (s, y) = choose|s: int, y: int| #[trigger] discovers(rules, states, s, y, k);
        kernel_of(rules, states[s], Symbol::at_ordinal(y))
    }
}

/// An item in the state at the end of a path has the symbols before its dot
/// as the last symbols of the path, and the state from which these symbols
/// lead holds the item with the dot in front.
pub proof fn lemma_handle(
    rules: Seq<Rule>,
    states: Seq<Set<LrItem>>,
    path: Seq<usize>,
    symbols: Seq<Symbol>,
    item: LrItem,
    h: int,
)
    requires
        canonical(rules, states),
        is_path(rules, states, path, symbols),
        0 <= h < path.len(),
        states[path[h] as int].contains(item),
    ensures
        item.dot_position <= h,
        forall|i: int|
            0 <= i < item.dot_position ==> symbols[h - item.dot_position + i]
                == #[trigger] rules[item.production_id as int].rhs[i],
        states[path[h - item.dot_position] as int].contains(at_start(item)),
    decreases item.dot_position,
{
    if item.dot_position > 0 {
        if h == 0 {
            lemma_closure_dot(rules, set![initial_item()], item);
        } else {
            let back = retreated(item);
            assert(edge_justified(
                rules,
                states,
                path[h - 1] as int,
                symbols[h - 1],
                Some(path[(h - 1) + 1]),
            ));
            lemma_closure_dot(rules, kernel_of(rules, states[path[h - 1] as int], symbols[h - 1]),
                item);
            lemma_handle(rules, states, path, symbols, back, h - 1);
            assert(at_start(back) == at_start(item));
            assert forall|i: int| 0 <= i < item.dot_position implies symbols[h
                - item.dot_position + i] == #[trigger] rules[item.production_id as int].rhs[i] by {
                if i < item.dot_position - 1 {
                    assert(symbols[(h - 1) - back.dot_position + i]
                        == rules[back.production_id as int].rhs[i]);
                }
            }
        }
    } else {
        assert(at_start(item) == item);
    }
}

/// A state that holds a rule other than the rule 0 with the dot in front
/// has an edge on the rule's left-hand side.
pub proof fn lemma_goto_exists(rules: Seq<Rule>, states: Seq<Set<LrItem>>, k: int, item: LrItem)
    requires
        canonical(rules, states),
        0 <= k < states.len(),
        states[k].contains(item),
        item.dot_position == 0,
        0 < item.production_id < rules.len(),
        forall|p: int| 0 <= p < rules.len() ==> (#[trigger] rules[p]).rhs.len() <= usize::MAX,
    ensures
        has_edge(rules, states[k], Symbol::NonTerminal(rules[item.production_id as int].lhs)),
{
    let kernel = lemma_state_is_closure(rules, states, k);
    lemma_closure_origin(rules, kernel, item);
    let a = choose|a: LrItem| #[trigger]
        predicts(rules, a, item) && closure_of(rules, kernel).contains(a);
    let x = Symbol::NonTerminal(rules[item.production_id as int].lhs);
    assert(rules[a.production_id as int].rhs.len() <= usize::MAX);
    assert(retreated(advanced(a)) == a);
    assert(kernel_of(rules, states[k], x).contains(advanced(a)));
}

} // verus!
