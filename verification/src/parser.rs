//! Parser Driver: the shift-reduce machine that reads tokens against the
//! LR(1) tables and builds the syntax tree.

use crate::ast::{BinaryOp, Expr, ExprView, UnaryOp};
use crate::automaton::{
    acceptable, action_justified, at_start, canonical, edge_justified, finished_item, has_edge,
    initial_item, is_path, kernel_of, lemma_closure_holds_kernel, lemma_goto_exists, lemma_handle,
    reducible,
};
use crate::complete::lemma_complete;
use crate::conflicts::lemma_calculator_conflict_free;
use crate::error::{ParseError, ParseErrorView, ParseResult};
use crate::grammar::{calculator_rules, Grammar, NonTerminal, Rule, Symbol};
use crate::item_set::LrItem;
use crate::language::{
    additive, lemma_spells_nonempty, level, multiplicative, rule_value, spells, token_value,
};
use crate::lexer::{lemma_tokens_end, tokens_view, Lexer};
use crate::lr_table::{Action, LrTable};
use crate::theorems::{
    lemma_calculator_augmented, lemma_start_item_place, lemma_start_not_predicted,
};
use crate::token::{Token, TokenType, TokenView};
use vstd::prelude::*;

verus! {

/// What an entry of the stack stands for: a symbol, and the tokens from
/// `from` up to `to` that were read for it.
pub struct Span {
    pub symbol: Symbol,
    pub from: int,
    pub to: int,
}

/// The value of a stack entry as a mathematical value.
pub open spec fn option_view(value: Option<Expr>) -> Option<ExprView> {
    match value {
        Some(e) => Some(e@),
        None => None,
    }
}

/// The values of the stack as mathematical values.
pub open spec fn values_view(values: Seq<Option<Expr>>) -> Seq<Option<ExprView>> {
    Seq::new(values.len(), |i: int| option_view(values[i]))
}

/// The entry carries what its tokens spell: a terminal is one token of its
/// type and carries the token's value; a non-terminal carries an expression
/// that its tokens spell.
pub open spec fn span_ok(tokens: Seq<TokenView>, span: Span, value: Option<ExprView>) -> bool {
    &&& 0 <= span.from <= span.to <= tokens.len()
    &&& match span.symbol {
        Symbol::Terminal(t) => span.to == span.from + 1 && tokens[span.from].token_type == t
            && value == token_value(tokens[span.from]),
        Symbol::NonTerminal(n) => value is Some && spells(
            n,
            value->Some_0,
            tokens.subrange(span.from, span.to),
        ),
    }
}

/// Where the tokens of the entry `i` begin: where those of the entry below
/// end.
pub open spec fn begins_at(spans: Seq<Span>, i: int) -> int {
    if i == 0 {
        0
    } else {
        spans[i - 1].to
    }
}

/// The entries cover the tokens before `pos` one after the other, each
/// carrying what its tokens spell.
pub open spec fn spans_ok(
    tokens: Seq<TokenView>,
    spans: Seq<Span>,
    values: Seq<Option<ExprView>>,
    pos: int,
) -> bool {
    &&& values.len() == spans.len()
    &&& forall|i: int| 0 <= i < spans.len() ==> span_ok(tokens, #[trigger] spans[i], values[i])
    &&& forall|i: int| 0 <= i < spans.len() ==> spans[i].from == #[trigger] begins_at(spans, i)
    &&& pos == (if spans.len() == 0 {
        0
    } else {
        spans.last().to
    })
    &&& 0 <= pos <= tokens.len()
}

/// The symbols of the entries.
pub open spec fn symbols_of(spans: Seq<Span>) -> Seq<Symbol> {
    Seq::new(spans.len(), |i: int| spans[i].symbol)
}

/// How high the symbol on top of the stack stands in the chain of the rules
/// `F -> number`, `T -> F`, `E -> T`.
pub open spec fn top_rank(spans: Seq<Span>) -> nat {
    if spans.len() == 0 {
        0
    } else {
        match spans.last().symbol {
            Symbol::Terminal(_) => 0,
            Symbol::NonTerminal(n) => 1 + level(n),
        }
    }
}

/// A rule of the calculator makes of values that spell the parts of its
/// right-hand side a value that spells the whole.
pub proof fn lemma_rule_spells(
    tokens: Seq<TokenView>,
    p: int,
    kids: Seq<Span>,
    values: Seq<Option<ExprView>>,
)
    requires
        1 <= p <= 9,
        kids.len() == calculator_rules()[p].rhs.len(),
        values.len() == kids.len(),
        forall|i: int| 0 <= i < kids.len() ==>
            (#[trigger] kids[i]).symbol == calculator_rules()[p].rhs[i],
        forall|i: int| 0 <= i < kids.len() ==> span_ok(tokens, #[trigger] kids[i], values[i]),
        forall|i: int| 0 < i < kids.len() ==> kids[i].from == #[trigger] begins_at(kids, i),
    ensures
        rule_value(p, values) is Some,
        spells(
            calculator_rules()[p].lhs,
            rule_value(p, values)->Some_0,
            tokens.subrange(kids[0].from, kids.last().to),
        ),
{
    reveal(calculator_rules);
    let rules = calculator_rules();
    let whole = tokens.subrange(kids[0].from, kids.last().to);
    assert(span_ok(tokens, kids[0], values[0]));
    if kids.len() > 1 {
        assert(kids[1].from == begins_at(kids, 1));
    }
    if kids.len() > 2 {
        assert(kids[2].from == begins_at(kids, 2));
    }
    if p == 3 || p == 6 {
        assert(kids[0].symbol == rules[p].rhs[0]);
    } else if p == 8 {
        assert(kids[0].symbol == rules[p].rhs[0]);
        assert(whole[0] == tokens[kids[0].from]);
    } else if p == 9 {
        assert(kids[0].symbol == rules[p].rhs[0]);
        assert(kids[1].symbol == rules[p].rhs[1]);
        assert(span_ok(tokens, kids[1], values[1]));
        lemma_spells_nonempty(
            NonTerminal::Factor,
            values[1]->Some_0,
            tokens.subrange(kids[1].from, kids[1].to),
        );
        assert(whole.skip(1) =~= tokens.subrange(kids[1].from, kids[1].to));
        assert(whole[0] == tokens[kids[0].from]);
    } else if p == 7 {
        assert(kids[0].symbol == rules[p].rhs[0]);
        assert(kids[1].symbol == rules[p].rhs[1]);
        assert(kids[2].symbol == rules[p].rhs[2]);
        assert(span_ok(tokens, kids[1], values[1]));
        assert(span_ok(tokens, kids[2], values[2]));
        lemma_spells_nonempty(
            NonTerminal::Expr,
            values[1]->Some_0,
            tokens.subrange(kids[1].from, kids[1].to),
        );
        assert(whole.subrange(1, whole.len() - 1) =~= tokens.subrange(kids[1].from, kids[1].to));
        assert(whole[0] == tokens[kids[0].from]);
        assert(whole.last() == tokens[kids[2].from]);
    } else {
        assert(kids[0].symbol == rules[p].rhs[0]);
        assert(kids[1].symbol == rules[p].rhs[1]);
        assert(kids[2].symbol == rules[p].rhs[2]);
        assert(span_ok(tokens, kids[1], values[1]));
        assert(span_ok(tokens, kids[2], values[2]));
        let left = tokens.subrange(kids[0].from, kids[0].to);
        let right = tokens.subrange(kids[2].from, kids[2].to);
        let k = kids[0].to - kids[0].from;
        assert(whole.take(k) =~= left);
        assert(whole.skip(k + 1) =~= right);
        assert(whole[k] == tokens[kids[1].from]);
        let e = rule_value(p, values)->Some_0;
        if p == 1 || p == 2 {
            lemma_spells_nonempty(NonTerminal::Expr, values[0]->Some_0, left);
            lemma_spells_nonempty(NonTerminal::Term, values[2]->Some_0, right);
            assert(0 < k < whole.len() - 1 && additive(whole[k].token_type) is Some && e is Binary
                && e->Binary_op == additive(whole[k].token_type)->Some_0 && spells(
                NonTerminal::Expr,
                *e->left,
                whole.take(k),
            ) && spells(NonTerminal::Term, *e->right, whole.skip(k + 1)));
        } else {
            lemma_spells_nonempty(NonTerminal::Term, values[0]->Some_0, left);
            lemma_spells_nonempty(NonTerminal::Factor, values[2]->Some_0, right);
            assert(0 < k < whole.len() - 1 && multiplicative(whole[k].token_type) is Some
                && e is Binary && e->Binary_op == multiplicative(whole[k].token_type)->Some_0
                && spells(NonTerminal::Term, *e->left, whole.take(k)) && spells(
                NonTerminal::Factor,
                *e->right,
                whole.skip(k + 1),
            ));
        }
    }
}

/// The tokens of an entry begin before the place up to which the tokens
/// have been read.
pub proof fn lemma_spans_ordered(
    tokens: Seq<TokenView>,
    spans: Seq<Span>,
    values: Seq<Option<ExprView>>,
    pos: int,
    i: int,
)
    requires
        spans_ok(tokens, spans, values, pos),
        0 <= i < spans.len(),
    ensures
        spans[i].from <= spans[i].to <= pos,
    decreases spans.len() - i,
{
    assert(span_ok(tokens, spans[i], values[i]));
    if i + 1 < spans.len() {
        lemma_spans_ordered(tokens, spans, values, pos, i + 1);
        assert(spans[i + 1].from == begins_at(spans, i + 1));
    }
}

/// The rules of the calculator have one to three symbols, and a rule of one
/// symbol has a left-hand side that stands higher than the symbol.
pub proof fn lemma_calculator_shape(p: int)
    requires
        0 <= p < 10,
    ensures
        calculator_rules().len() == 10,
        1 <= calculator_rules()[p].rhs.len() <= 3,
        calculator_rules()[p].rhs.len() == 1 ==> (match calculator_rules()[p].rhs[0] {
            Symbol::Terminal(_) => 0,
            Symbol::NonTerminal(n) => 1 + level(n),
        }) < 1 + level(calculator_rules()[p].lhs),
{
    reveal(calculator_rules);
    if p == 0 {
    } else if p == 1 {
    } else if p == 2 {
    } else if p == 3 {
    } else if p == 4 {
    } else if p == 5 {
    } else if p == 6 {
    } else if p == 7 {
    } else if p == 8 {
    } else {
    }
}

/// Shifting a token puts its terminal on the stack, with the token's value.
pub proof fn lemma_shift_step(
    rules: Seq<Rule>,
    states: Seq<Set<LrItem>>,
    tokens: Seq<TokenView>,
    path: Seq<usize>,
    spans: Seq<Span>,
    values: Seq<Option<ExprView>>,
    pos: int,
    next: usize,
)
    requires
        is_path(rules, states, path, symbols_of(spans)),
        spans_ok(tokens, spans, values, pos),
        pos < tokens.len(),
        edge_justified(
            rules,
            states,
            path.last() as int,
            Symbol::Terminal(tokens[pos].token_type),
            Some(next),
        ),
    ensures
        is_path(
            rules,
            states,
            path.push(next),
            symbols_of(
                spans.push(
                    Span { symbol: Symbol::Terminal(tokens[pos].token_type), from: pos,
                        to: pos + 1 },
                ),
            ),
        ),
        spans_ok(
            tokens,
            spans.push(
                Span { symbol: Symbol::Terminal(tokens[pos].token_type), from: pos, to: pos + 1 },
            ),
            values.push(token_value(tokens[pos])),
            pos + 1,
        ),
{
    let span = Span { symbol: Symbol::Terminal(tokens[pos].token_type), from: pos, to: pos + 1 };
    let longer = spans.push(span);
    let symbols = symbols_of(spans);
    let more = symbols_of(longer);
    let further = path.push(next);
    assert forall|i: int| 0 <= i < more.len() implies edge_justified(
        rules,
        states,
        further[i] as int,
        #[trigger] more[i],
        Some(further[i + 1]),
    ) by {
        if i < symbols.len() {
            assert(more[i] == symbols[i]);
            assert(edge_justified(rules, states, path[i] as int, symbols[i], Some(path[i + 1])));
        }
    }
    assert forall|i: int| 0 <= i < longer.len() implies span_ok(
        tokens,
        #[trigger] longer[i],
        values.push(token_value(tokens[pos]))[i],
    ) by {
        if i < spans.len() {
            assert(span_ok(tokens, spans[i], values[i]));
        }
    }
    assert forall|i: int| 0 <= i < longer.len() implies longer[i].from == #[trigger] begins_at(
        longer,
        i,
    ) by {
        if i < spans.len() {
            assert(spans[i].from == begins_at(spans, i));
        }
    }
}

/// Where the state on top of the stack holds a rule read to its end, the
/// stack ends with the right-hand side of the rule, and the state below has
/// a goto on the rule's left-hand side.
pub proof fn lemma_reduce_handle(
    rules: Seq<Rule>,
    states: Seq<Set<LrItem>>,
    path: Seq<usize>,
    symbols: Seq<Symbol>,
    p: int,
    t: TokenType,
)
    requires
        canonical(rules, states),
        is_path(rules, states, path, symbols),
        reducible(rules, states[path.last() as int], p, t),
        forall|q: int| 0 <= q < rules.len() ==> (#[trigger] rules[q]).rhs.len() <= usize::MAX,
        rules.len() <= usize::MAX,
    ensures
        rules[p].rhs.len() <= symbols.len(),
        forall|i: int|
            0 <= i < rules[p].rhs.len() ==> symbols[symbols.len() - rules[p].rhs.len() + i]
                == #[trigger] rules[p].rhs[i],
        has_edge(
            rules,
            states[path[symbols.len() - rules[p].rhs.len()] as int],
            Symbol::NonTerminal(rules[p].lhs),
        ),
{
    let h = path.len() - 1;
    let item = finished_item(rules, p, t.ordinal());
    assert(TokenType::at_ordinal(t.ordinal()) == t);
    assert(rules[p].rhs.len() <= usize::MAX);
    lemma_handle(rules, states, path, symbols, item, h);
    lemma_goto_exists(rules, states, path[h - item.dot_position] as int, at_start(item));
}

/// Where the stack ends with the right-hand side of a rule of the
/// calculator, the values there make a value that spells what was read for
/// them.
pub proof fn lemma_reduce_value(
    tokens: Seq<TokenView>,
    spans: Seq<Span>,
    values: Seq<Option<ExprView>>,
    pos: int,
    p: int,
)
    requires
        spans_ok(tokens, spans, values, pos),
        1 <= p <= 9,
        calculator_rules()[p].rhs.len() <= spans.len(),
        forall|i: int|
            0 <= i < calculator_rules()[p].rhs.len() ==> symbols_of(spans)[spans.len()
                - calculator_rules()[p].rhs.len() + i] == #[trigger] calculator_rules()[p].rhs[i],
    ensures
        1 <= calculator_rules()[p].rhs.len(),
        ({
            let n = calculator_rules()[p].rhs.len() as int;
            let base = spans.len() - n;
            &&& rule_value(p, values.subrange(base, spans.len() as int)) is Some
            &&& spells(
                calculator_rules()[p].lhs,
                rule_value(p, values.subrange(base, spans.len() as int))->Some_0,
                tokens.subrange(spans[base].from, pos),
            )
            &&& n == 1 ==> top_rank(spans) < 1 + level(calculator_rules()[p].lhs)
        }),
{
    let rules = calculator_rules();
    lemma_calculator_shape(p);
    let n = rules[p].rhs.len() as int;
    let h = spans.len() as int;
    let base = h - n;
    let kids = spans.subrange(base, h);
    let kid_values = values.subrange(base, h);
    let symbols = symbols_of(spans);
    assert forall|i: int| 0 <= i < kids.len() implies
        (#[trigger] kids[i]).symbol == rules[p].rhs[i] by {
        assert(symbols[h - n + i] == rules[p].rhs[i]);
    }
    assert forall|i: int| 0 <= i < kids.len() implies
        span_ok(tokens, #[trigger] kids[i], kid_values[i]) by {
        assert(span_ok(tokens, spans[base + i], values[base + i]));
    }
    assert forall|i: int| 0 < i < kids.len() implies
        kids[i].from == #[trigger] begins_at(kids, i) by {
        assert(spans[base + i].from == begins_at(spans, base + i));
    }
    lemma_rule_spells(tokens, p, kids, kid_values);
    assert(kids.last() == spans.last());
    assert(kids[0] == spans[base]);
    if n == 1 {
        assert(kids[0].symbol == rules[p].rhs[0]);
    }
}

/// Reducing by a rule replaces its right-hand side on the stack by its
/// left-hand side, with the value that the rule makes.
pub proof fn lemma_reduce_step(
    rules: Seq<Rule>,
    states: Seq<Set<LrItem>>,
    tokens: Seq<TokenView>,
    path: Seq<usize>,
    spans: Seq<Span>,
    values: Seq<Option<ExprView>>,
    pos: int,
    n: int,
    lhs: NonTerminal,
    node: ExprView,
    next: usize,
)
    requires
        is_path(rules, states, path, symbols_of(spans)),
        spans_ok(tokens, spans, values, pos),
        1 <= n <= spans.len(),
        spells(lhs, node, tokens.subrange(spans[spans.len() - n].from, pos)),
        edge_justified(
            rules,
            states,
            path[spans.len() - n] as int,
            Symbol::NonTerminal(lhs),
            Some(next),
        ),
    ensures
        ({
            let base = spans.len() - n;
            let span = Span { symbol: Symbol::NonTerminal(lhs), from: spans[base].from, to: pos };
            &&& is_path(
                rules,
                states,
                path.take(base + 1).push(next),
                symbols_of(spans.take(base).push(span)),
            )
            &&& spans_ok(
                tokens,
                spans.take(base).push(span),
                values.take(base).push(Some(node)),
                pos,
            )
        }),
{
    let base = spans.len() - n;
    let span = Span { symbol: Symbol::NonTerminal(lhs), from: spans[base].from, to: pos };
    let shorter = spans.take(base).push(span);
    let symbols = symbols_of(spans);
    let fewer = symbols_of(shorter);
    let back = path.take(base + 1).push(next);
    let kept = values.take(base).push(Some(node));
    assert(span_ok(tokens, spans[base], values[base]));
    assert(span_ok(tokens, spans.last(), values[spans.len() - 1]));
    lemma_spans_ordered(tokens, spans, values, pos, base);
    assert forall|i: int| 0 <= i < fewer.len() implies edge_justified(
        rules,
        states,
        back[i] as int,
        #[trigger] fewer[i],
        Some(back[i + 1]),
    ) by {
        if i < base {
            assert(fewer[i] == symbols[i]);
            assert(edge_justified(rules, states, path[i] as int, symbols[i], Some(path[i + 1])));
        }
    }
    assert forall|i: int| 0 <= i < back.len() implies (#[trigger] back[i]) < states.len() by {
        if i <= base {
            assert(path[i] < states.len());
        }
    }
    assert forall|i: int| 0 <= i < shorter.len() implies
        span_ok(tokens, #[trigger] shorter[i], kept[i]) by {
        if i < base {
            assert(span_ok(tokens, spans[i], values[i]));
        }
    }
    assert forall|i: int| 0 <= i < shorter.len() implies shorter[i].from == #[trigger] begins_at(
        shorter,
        i,
    ) by {
        if i < base {
            assert(spans[i].from == begins_at(spans, i));
        } else {
            assert(spans[base].from == begins_at(spans, base));
        }
    }
}

/// Where the action is acceptance, the stack holds one entry, an expression
/// that the tokens read so far spell.
pub proof fn lemma_accept_ready(
    states: Seq<Set<LrItem>>,
    tokens: Seq<TokenView>,
    path: Seq<usize>,
    spans: Seq<Span>,
    values: Seq<Option<ExprView>>,
    pos: int,
    u: TokenType,
)
    requires
        canonical(calculator_rules(), states),
        is_path(calculator_rules(), states, path, symbols_of(spans)),
        spans_ok(tokens, spans, values, pos),
        acceptable(calculator_rules(), states[path.last() as int], u),
    ensures
        spans.len() == 1,
        values[0] is Some,
        spells(NonTerminal::Expr, values[0]->Some_0, tokens.take(pos)),
{
    let rules = calculator_rules();
    lemma_calculator_augmented();
    lemma_calculator_shape(0);
    assert(rules[0].rhs[0] == Symbol::NonTerminal(NonTerminal::Expr)) by {
        reveal(calculator_rules);
    }
    let h = path.len() - 1;
    let item = LrItem { production_id: 0, dot_position: 1, lookahead: u };
    let symbols = symbols_of(spans);
    lemma_handle(rules, states, path, symbols, item, h);
    lemma_start_item_place(rules, states, path[h - 1] as int, at_start(item));
    if h - 1 > 0 {
        // No edge leads back to the first state.
        let i = h - 2;
        assert(edge_justified(rules, states, path[i] as int, symbols[i], Some(path[i + 1])));
        lemma_closure_holds_kernel(rules, set![initial_item()]);
        lemma_start_not_predicted(
            rules,
            kernel_of(rules, states[path[i] as int], symbols[i]),
            initial_item(),
        );
    }
    assert(symbols[h - item.dot_position + 0] == rules[item.production_id as int].rhs[0]);
    assert(span_ok(tokens, spans[0], values[0]));
    assert(spans[0].from == begins_at(spans, 0));
    assert(tokens.subrange(0, pos) =~= tokens.take(pos));
}

/// LR parser for calculator expressions
pub struct Parser {
    pub table: LrTable,
}

impl Parser {
    /// The parser holds the LR(1) table of the calculator's grammar.
    pub open spec fn wf(&self) -> bool {
        &&& self.table.wf()
        &&& self.table.rules() == calculator_rules()
    }

    /// Create a new parser with the LR(1) table of the calculator's grammar
    pub fn new() -> (parser: Parser)
        ensures
            parser.wf(),
    {
        let grammar = Grammar::new();
        let table = LrTable::new(grammar);
        Parser { table }
    }

    /// Parse an input string into an expression
    pub fn parse(&self, input: &str) -> (result: ParseResult<Expr>)
        requires
            self.wf(),
            input@.len() < usize::MAX,
        ensures
            parse_outcome(self.table, input@, result),
    {
        let mut lexer = Lexer::new(input);
        let tokens = match lexer.tokenize() {
            Ok(tokens) => tokens,
            Err(e) => {
                return Err(e);
            },
        };
        let result = self.parse_tokens(&tokens);
        proof {
            let stream = tokens_view(tokens@);
            let last = stream.len() - 1;
            lemma_tokens_end(
                crate::lexer::LexerState { input: input@, current: 0, line: 1, column: 1 },
            );
            assert(stream.take(last) =~= stream.drop_last());
            assert forall|e: ExprView| #[trigger] text_spells(input@, e) implies result_view(result)
                == Ok::<ExprView, ParseErrorView>(e) by {
                assert(accepts(stream, last, e));
            }
            if result is Ok {
                let e = result->Ok_0;
                let n = choose|n: int| #[trigger] accepts(stream, n, e@);
                assert(n == last) by {
                    if n < last {
                        assert(stream[n].token_type != TokenType::Eof);
                    }
                }
            }
        }
        result
    }

    /// Runs the shift-reduce machine over the tokens.
    ///
    /// The machine begins in the first state. For the state on top of its
    /// stack and the next token it takes the action of the table: it shifts
    /// the token and goes on with the next; or it reduces by a rule, takes
    /// the rule's right-hand side off the stack and puts the left-hand side
    /// there, with the value that the rule makes, and looks at the same token
    /// again; or it accepts, and the one value left on the stack is the
    /// result. Where the table has no action, or the tokens end before the
    /// machine accepts, the input is rejected: nothing is recovered.
    pub fn parse_tokens(&self, tokens: &Vec<Token>) -> (result: ParseResult<Expr>)
        requires
            self.wf(),
        ensures
            tokens_outcome(self.table, tokens_view(tokens@), result),
    {
        let result = self.run(tokens);
        proof {
            let input = tokens_view(tokens@);
            lemma_calculator_conflict_free(self.table.state_sets());
            assert forall|n: int, e: ExprView| #[trigger] accepts(input, n, e) implies result_view(
                result,
            ) == Ok::<ExprView, ParseErrorView>(e) by {
                lemma_complete(self.table, input, n, e);
                lemma_machine_result_unique(
                    self.table,
                    input,
                    Ok::<ExprView, ParseErrorView>(e),
                    result_view(result),
                );
            }
        }
        result
    }

    /// The run of the machine, step by step.
    fn run(&self, tokens: &Vec<Token>) -> (result: ParseResult<Expr>)
        requires
            self.wf(),
        ensures
            machine_result(self.table, tokens_view(tokens@), result_view(result)),
            result matches Ok(e) ==> exists|n: int| #[trigger] accepts(tokens_view(tokens@), n, e@),
    {
        let ghost input = tokens_view(tokens@);

        let mut states: Vec<usize> = Vec::new();
        states.push(0);
        let mut values: Vec<Option<Expr>> = Vec::new();
        let mut spans: Ghost<Seq<Span>> = Ghost(Seq::empty());
        let mut pos: usize = 0;
        proof {
            assert(symbols_of(spans@) =~= Seq::<Symbol>::empty());
            assert(values_view(values@) =~= Seq::<Option<ExprView>>::empty());
            assert(self.table.state_sets().len() > 0);
        }

        let ghost mut steps: nat = 0;
        assert(machine_of(states@, values@, 0) == machine_start());

        loop
            invariant
                self.wf(),
                input == tokens_view(tokens@),
                pos <= tokens.len(),
                machine_ok(self.table, input, states@, values@, spans@, pos as int),
                machine_reaches(self.table, input, machine_of(states@, values@, pos as int), steps),
            decreases tokens.len() - pos, states.len(), 5 - top_rank(spans@),
        {
            let state = states[states.len() - 1];
            let ghost here = machine_of(states@, values@, pos as int);
            if pos >= tokens.len() {
                // The input ends before the machine accepts.
                let expected = self.expected_terminals(state);
                let error = ParseError::unexpected_eof(expected);
                assert(error@ == rejection(self.table, input, state as int, pos as int));
                assert(machine_step(self.table, input, here) == Move::Done(
                    Err::<ExprView, ParseErrorView>(error@),
                ));
                return Err(error);
            }
            let lookahead = tokens[pos].token_type;
            assert(input[pos as int] == tokens[pos as int]@);

            match self.table.action(state, lookahead) {
                Some(Action::Shift(next)) => {
                    spans = self.shift(
                        &mut states,
                        &mut values,
                        spans,
                        &tokens[pos],
                        *next,
                        Ghost(input),
                        Ghost(pos as int),
                    );
                    pos += 1;
                    proof {
                        steps = steps + 1;
                    }
                },
                Some(Action::Reduce(production_id)) => {
                    spans = self.reduce(
                        &mut states,
                        &mut values,
                        spans,
                        *production_id,
                        Ghost(input),
                        Ghost(pos as int),
                        Ghost(lookahead),
                    );
                    proof {
                        steps = steps + 1;
                    }
                },
                Some(Action::Accept) => {
                    proof {
                        let rules = self.table.rules();
                        let sets = self.table.state_sets();
                        assert(action_justified(
                            rules,
                            sets,
                            state as int,
                            lookahead,
                            self.table.action_entry(state as int, lookahead),
                        ));
                        let u = choose|u: TokenType| #[trigger] acceptable(rules,
                            sets[state as int], u);
                        lemma_accept_ready(
                            sets,
                            input,
                            states@,
                            spans@,
                            values_view(values@),
                            pos as int,
                            u,
                        );
                    }
                    let top = values.pop().unwrap();
                    match top {
                        Some(expr) => {
                            assert(accepts(input, pos as int, expr@));
                            assert(here.values.last() == Some(expr@));
                            assert(machine_step(self.table, input, here) == Move::Done(
                                Ok::<ExprView, ParseErrorView>(expr@),
                            ));
                            return Ok(expr);
                        },
                        None => {
                            // The entry on top of an accepting stack is an
                            // expression.
                            assert(false);
                            return Err(ParseError::unexpected_eof(Vec::new()));
                        },
                    }
                },
                None => {
                    let expected = self.expected_terminals(state);
                    let error = if lookahead == TokenType::Eof {
                        ParseError::unexpected_eof(expected)
                    } else {
                        ParseError::unexpected_token(expected, tokens[pos].duplicate())
                    };
                    assert(error@ == rejection(self.table, input, state as int, pos as int));
                    assert(machine_step(self.table, input, here) == Move::Done(
                        Err::<ExprView, ParseErrorView>(error@),
                    ));
                    return Err(error);
                },
            }
        }
    }

    /// Shifts a token: pushes the state that the token leads to, and the
    /// token's value.
    fn shift(
        &self,
        states: &mut Vec<usize>,
        values: &mut Vec<Option<Expr>>,
        spans: Ghost<Seq<Span>>,
        token: &Token,
        next: usize,
        input: Ghost<Seq<TokenView>>,
        pos: Ghost<int>,
    ) -> (after: Ghost<Seq<Span>>)
        requires
            self.wf(),
            machine_ok(self.table, input@, old(states)@, old(values)@, spans@, pos@),
            0 <= pos@ < input@.len(),
            input@[pos@] == token@,
            self.table.action_entry(old(states)@.last() as int, token.token_type) == Some(
                Action::Shift(next),
            ),
        ensures
            machine_ok(self.table, input@, final(states)@, final(values)@, after@, pos@ + 1),
            machine_step(self.table, input@, machine_of(old(states)@, old(values)@, pos@))
                == Move::Next(machine_of(final(states)@, final(values)@, pos@ + 1)),
    {
        let ghost rules = self.table.rules();
        let ghost sets = self.table.state_sets();
        let value = if token.token_type == TokenType::Number {
            Some(Expr::number(token.lexeme.clone()))
        } else {
            None
        };
        proof {
            let state = states@.last() as int;
            assert(action_justified(
                rules,
                sets,
                state,
                token.token_type,
                self.table.action_entry(state, token.token_type),
            ));
            lemma_shift_step(rules, sets, input@, states@, spans@, values_view(values@), pos@,
                next);
            assert(values_view(values@.push(value)) =~= values_view(values@).push(
                token_value(input@[pos@]),
            ));
        }
        states.push(next);
        values.push(value);
        proof {
            let before = machine_of(old(states)@, old(values)@, pos@);
            let after = machine_of(states@, values@, pos@ + 1);
            assert(after.values =~= before.values.push(token_value(input@[pos@])));
        }
        Ghost(
            spans@.push(Span { symbol: Symbol::Terminal(token.token_type), from: pos@,
                to: pos@ + 1 }),
        )
    }

    /// Reduces by a rule: takes the rule's right-hand side off the stack and
    /// pushes the state that the rule's left-hand side leads to, with the
    /// value that the rule makes.
    fn reduce(
        &self,
        states: &mut Vec<usize>,
        values: &mut Vec<Option<Expr>>,
        spans: Ghost<Seq<Span>>,
        production_id: usize,
        input: Ghost<Seq<TokenView>>,
        pos: Ghost<int>,
        lookahead: Ghost<TokenType>,
    ) -> (after: Ghost<Seq<Span>>)
        requires
            self.wf(),
            machine_ok(self.table, input@, old(states)@, old(values)@, spans@, pos@),
            self.table.action_entry(old(states)@.last() as int, lookahead@) == Some(
                Action::Reduce(production_id),
            ),
            0 <= pos@ < input@.len(),
            input@[pos@].token_type == lookahead@,
        ensures
            machine_ok(self.table, input@, final(states)@, final(values)@, after@, pos@),
            final(states).len() < old(states).len() || (final(states).len() == old(states).len()
                && top_rank(after@) > top_rank(spans@)),
            machine_step(self.table, input@, machine_of(old(states)@, old(values)@, pos@))
                == Move::Next(machine_of(final(states)@, final(values)@, pos@)),
    {
        let ghost rules = self.table.rules();
        let ghost sets = self.table.state_sets();
        let ghost kids_before = values_view(values@);
        let ghost path_before = states@;
        proof {
            let state = states@.last() as int;
            assert(action_justified(
                rules,
                sets,
                state,
                lookahead@,
                self.table.action_entry(state, lookahead@),
            ));
            lemma_calculator_shape(0);
            assert forall|q: int| 0 <= q < rules.len() implies (#[trigger] rules[q]).rhs.len()
                <= usize::MAX by {
                lemma_calculator_shape(q);
            }
            lemma_reduce_handle(
                rules,
                sets,
                states@,
                symbols_of(spans@),
                production_id as int,
                lookahead@,
            );
            lemma_reduce_value(input@, spans@, kids_before, pos@, production_id as int);
        }
        let production = &self.table.grammar.productions[production_id];
        assert(rules[production_id as int] == production@);
        let n = production.rhs.len();
        let lhs = production.lhs;
        let base = values.len() - n;
        let children = values.split_off(base);
        states.truncate(base + 1);
        assert(values_view(children@) =~= kids_before.subrange(base as int,
            kids_before.len() as int));
        let node = Parser::apply(production_id, children);
        let below = states[states.len() - 1];
        let ghost target = self.table.goto_entry(below as int, lhs);
        assert(edge_justified(rules, sets, below as int, Symbol::NonTerminal(lhs), target));
        let next = match self.table.goto(below, lhs) {
            Some(next) => next,
            None => {
                // Every state from which a rule was read has a goto on the
                // rule's left-hand side.
                assert(false);
                0
            },
        };
        let ghost span = Span {
            symbol: Symbol::NonTerminal(lhs),
            from: spans@[base as int].from,
            to: pos@,
        };
        proof {
            lemma_reduce_step(
                rules,
                sets,
                input@,
                path_before,
                spans@,
                kids_before,
                pos@,
                n as int,
                lhs,
                option_view(node)->Some_0,
                next,
            );
            assert(values_view(values@.push(node)) =~= kids_before.take(base as int).push(
                Some(option_view(node)->Some_0),
            ));
            assert(states@ =~= path_before.take(base + 1));
        }
        states.push(next);
        values.push(node);
        proof {
            let before = machine_of(old(states)@, old(values)@, pos@);
            let after = machine_of(states@, values@, pos@);
            assert(before.values.len() - rules[production_id as int].rhs.len() == base);
            assert(after.states =~= before.states.take(base + 1).push(next));
            assert(after.values =~= before.values.take(base as int).push(
                rule_value(
                    production_id as int,
                    before.values.subrange(base as int, before.values.len() as int),
                ),
            ));
        }
        Ghost(spans@.take(base as int).push(span))
    }

    /// The semantic action of a rule: makes the value of the left-hand side
    /// of the values of the right-hand side.
    pub fn apply(production_id: usize, children: Vec<Option<Expr>>) -> (node: Option<Expr>)
        ensures
            option_view(node) == rule_value(production_id as int, values_view(children@)),
    {
        let mut children = children;
        let ghost kids = values_view(children@);
        if production_id == 3 || production_id == 6 || production_id == 8 {
            // E -> T, T -> F, F -> number
            if children.len() == 1 {
                let only = children.pop().unwrap();
                assert(option_view(only) == kids[0]);
                only
            } else {
                None
            }
        } else if production_id == 7 {
            // F -> ( E )
            if children.len() == 3 {
                let _close = children.pop();
                let inner = children.pop().unwrap();
                assert(option_view(inner) == kids[1]);
                inner
            } else {
                None
            }
        } else if production_id == 9 {
            // F -> - F
            if children.len() == 2 {
                let operand = children.pop().unwrap();
                assert(option_view(operand) == kids[1]);
                match operand {
                    Some(operand) => Some(Expr::unary(UnaryOp::Negate, operand)),
                    None => None,
                }
            } else {
                None
            }
        } else if production_id == 1 || production_id == 2 || production_id == 4 || production_id
            == 5 {
            // E -> E + T, E -> E - T, T -> T * F, T -> T / F
            if children.len() == 3 {
                let right = children.pop().unwrap();
                let _sign = children.pop();
                let left = children.pop().unwrap();
                assert(option_view(right) == kids[2]);
                assert(option_view(left) == kids[0]);
                let op = if production_id == 1 {
                    BinaryOp::Add
                } else if production_id == 2 {
                    BinaryOp::Subtract
                } else if production_id == 4 {
                    BinaryOp::Multiply
                } else {
                    BinaryOp::Divide
                };
                match left {
                    Some(left) => match right {
                        Some(right) => Some(Expr::binary(left, op, right)),
                        None => None,
                    },
                    None => None,
                }
            } else {
                None
            }
        } else {
            None
        }
    }

    /// The terminals for which the state has an action, in the order of
    /// their declaration.
    pub fn expected_terminals(&self, state: usize) -> (expected: Vec<TokenType>)
        requires
            self.table.action_table.wf(),
        ensures
            expected@ == expected_in(self.table, state as int, 8),
    {
        let mut expected: Vec<TokenType> = Vec::new();
        let mut i: usize = 0;
        while i < 8
            invariant
                i <= 8,
                self.table.action_table.wf(),
                expected@ == expected_in(self.table, state as int, i as int),
            decreases 8 - i,
        {
            let terminal = TokenType::from_index(i);
            if self.table.action(state, terminal).is_some() {
                expected.push(terminal);
            }
            i += 1;
        }
        expected
    }
}

/// The stack of the machine is in order: its states form a path through the
/// automaton along the symbols of its entries, and the entries carry what the
/// tokens before `pos` spell.
pub open spec fn machine_ok(
    table: LrTable,
    input: Seq<TokenView>,
    states: Seq<usize>,
    values: Seq<Option<Expr>>,
    spans: Seq<Span>,
    pos: int,
) -> bool {
    &&& is_path(table.rules(), table.state_sets(), states, symbols_of(spans))
    &&& spans_ok(input, spans, values_view(values), pos)
}

/// The error for the token at place `n` in a state without an action for
/// it: it names the token and the terminals that the state has an action
/// for; at the end of the input it names these terminals.
pub open spec fn rejection(table: LrTable, input: Seq<TokenView>, state: int,
    n: int) -> ParseErrorView {
    if n < input.len() && input[n].token_type != TokenType::Eof {
        ParseErrorView::UnexpectedToken { expected: expected_in(table, state, 8), found: input[n] }
    } else {
        ParseErrorView::UnexpectedEof { expected: expected_in(table, state, 8) }
    }
}

/// The shift-reduce machine at a moment: its stack of states, the values
/// that belong to the entries above the first state, and the place of the
/// next token.
pub struct Machine {
    pub states: Seq<usize>,
    pub values: Seq<Option<ExprView>>,
    pub pos: int,
}

/// What the machine does next: it goes on, or it ends with a result.
pub enum Move {
    Next(Machine),
    Done(Result<ExprView, ParseErrorView>),
}

/// The machine before the first token: in the first state, with no values.
pub open spec fn machine_start() -> Machine {
    Machine { states: seq![0usize], values: Seq::empty(), pos: 0 }
}

/// The machine with the stacks of a run of the parser.
pub open spec fn machine_of(states: Seq<usize>, values: Seq<Option<Expr>>, pos: int) -> Machine {
    Machine { states, values: values_view(values), pos }
}

/// One step of the machine. For the state on top of the stack and the next
/// token the table has an action. A shift pushes the state of the action and
/// the token's value and moves to the next token. A reduction takes as
/// many entries off the stacks as the rule has symbols, and pushes the state
/// that the goto table has for the state now on top and the rule's
/// left-hand side, with the value that the rule makes of the values taken
/// off. Acceptance ends the run with the value on top. Where the table has
/// no action, or no token is left, the run ends with the error for that
/// place.
pub open spec fn machine_step(table: LrTable, input: Seq<TokenView>, m: Machine) -> Move {
    let state = m.states.last() as int;
    if m.pos >= input.len() {
        Move::Done(Err(rejection(table, input, state, m.pos)))
    } else {
        match table.action_entry(state, input[m.pos].token_type) {
            None => Move::Done(Err(rejection(table, input, state, m.pos))),
            Some(Action::Shift(next)) => Move::Next(
                Machine {
                    states: m.states.push(next),
                    values: m.values.push(token_value(input[m.pos])),
                    pos: m.pos + 1,
                },
            ),
            Some(Action::Reduce(p)) => {
                let rule = table.rules()[p as int];
                let base = m.values.len() - rule.rhs.len();
                match table.goto_entry(m.states[base] as int, rule.lhs) {
                    Some(next) => Move::Next(
                        Machine {
                            states: m.states.take(base + 1).push(next),
                            values: m.values.take(base).push(
                                rule_value(p as int, m.values.subrange(base,
                                    m.values.len() as int)),
                            ),
                            pos: m.pos,
                        },
                    ),
                    None => Move::Done(Err(rejection(table, input, state, m.pos))),
                }
            },
            Some(Action::Accept) => match m.values.last() {
                Some(e) => Move::Done(Ok(e)),
                None => Move::Done(Err(rejection(table, input, state, m.pos))),
            },
        }
    }
}

/// The machine stands at `m` after `k` steps from the start.
pub open spec fn machine_reaches(table: LrTable, input: Seq<TokenView>, m: Machine, k: nat) -> bool
    decreases k,
{
    if k == 0 {
        m == machine_start()
    } else {
        exists|before: Machine|
            machine_reaches(table, input, before, (k - 1) as nat) && #[trigger] machine_step(
                table,
                input,
                before,
            ) == Move::Next(m)
    }
}

/// The run of the machine over the tokens ends with this result.
pub open spec fn machine_result(
    table: LrTable,
    input: Seq<TokenView>,
    result: Result<ExprView, ParseErrorView>,
) -> bool {
    exists|m: Machine, k: nat| #[trigger]
        machine_reaches(table, input, m, k) && machine_step(table, input, m) == Move::Done(result)
}

/// After a given number of steps the machine stands at one place only.
pub proof fn lemma_machine_reaches_unique(
    table: LrTable,
    input: Seq<TokenView>,
    a: Machine,
    b: Machine,
    k: nat,
)
    requires
        machine_reaches(table, input, a, k),
        machine_reaches(table, input, b, k),
    ensures
        a == b,
    decreases k,
{
    if k > 0 {
        let before_a = choose|before: Machine|
            machine_reaches(table, input, before, (k - 1) as nat) && #[trigger] machine_step(
                table,
                input,
                before,
            ) == Move::Next(a);
        let before_b = choose|before: Machine|
            machine_reaches(table, input, before, (k - 1) as nat) && #[trigger] machine_step(
                table,
                input,
                before,
            ) == Move::Next(b);
        lemma_machine_reaches_unique(table, input, before_a, before_b, (k - 1) as nat);
    }
}

/// A machine that has made `k` steps went on after each smaller number of
/// steps.
pub proof fn lemma_machine_went_on(
    table: LrTable,
    input: Seq<TokenView>,
    m: Machine,
    k: nat,
    j: nat,
) -> (earlier: Machine)
    requires
        machine_reaches(table, input, m, k),
        j < k,
    ensures
        machine_reaches(table, input, earlier, j),
        machine_step(table, input, earlier) is Next,
    decreases k,
{
    let before = choose|before: Machine|
        machine_reaches(table, input, before, (k - 1) as nat) && #[trigger] machine_step(
            table,
            input,
            before,
        ) == Move::Next(m);
    if j == k - 1 {
        before
    } else {
        lemma_machine_went_on(table, input, before, (k - 1) as nat, j)
    }
}

/// The run of the machine over given tokens has one result only.
pub proof fn lemma_machine_result_unique(
    table: LrTable,
    input: Seq<TokenView>,
    a: Result<ExprView, ParseErrorView>,
    b: Result<ExprView, ParseErrorView>,
)
    requires
        machine_result(table, input, a),
        machine_result(table, input, b),
    ensures
        a == b,
{
    let (ma, ka) = choose|m: Machine, k: nat| #[trigger]
        machine_reaches(table, input, m, k) && machine_step(table, input, m) == Move::Done(a);
    let (mb, kb) = choose|m: Machine, k: nat| #[trigger]
        machine_reaches(table, input, m, k) && machine_step(table, input, m) == Move::Done(b);
    if ka < kb {
        let earlier = lemma_machine_went_on(table, input, mb, kb, ka);
        lemma_machine_reaches_unique(table, input, ma, earlier, ka);
    } else if kb < ka {
        let earlier = lemma_machine_went_on(table, input, ma, ka, kb);
        lemma_machine_reaches_unique(table, input, mb, earlier, kb);
    } else {
        lemma_machine_reaches_unique(table, input, ma, mb, ka);
    }
}

/// A result as a mathematical value.
pub open spec fn result_view(result: ParseResult<Expr>) -> Result<ExprView, ParseErrorView> {
    match result {
        Ok(e) => Ok(e@),
        Err(e) => Err(e@),
    }
}

/// What the parser gives for the tokens. Where the tokens before an end
/// token spell an expression, it gives that expression; and it gives an
/// expression only where they spell it. Else it gives the error with which
/// the run of the machine ends.
pub open spec fn tokens_outcome(table: LrTable, input: Seq<TokenView>,
    result: ParseResult<Expr>) -> bool {
    &&& forall|n: int, e: ExprView| #[trigger]
        accepts(input, n, e) ==> result_view(result) == Ok::<ExprView, ParseErrorView>(e)
    &&& result matches Ok(e) ==> exists|n: int| #[trigger] accepts(input, n, e@)
    &&& machine_result(table, input, result_view(result))
}

/// The tokens before the end token at the place `n` spell the expression.
pub open spec fn accepts(input: Seq<TokenView>, n: int, e: ExprView) -> bool {
    &&& 0 <= n < input.len()
    &&& input[n].token_type == TokenType::Eof
    &&& spells(NonTerminal::Expr, e, input.take(n))
}

/// The tokens of a text; the error of the first character that begins no
/// token, where there is one.
pub open spec fn tokens_of(text: Seq<char>) -> Result<Seq<TokenView>, ParseErrorView> {
    (crate::lexer::LexerState { input: text, current: 0, line: 1, column: 1 }).tokens()
}

/// The text spells the expression: its tokens, without the end token, do.
pub open spec fn text_spells(text: Seq<char>, e: ExprView) -> bool {
    &&& tokens_of(text) is Ok
    &&& spells(NonTerminal::Expr, e, tokens_of(text)->Ok_0.drop_last())
}

/// What parsing gives for a text. Where the text spells an expression, it
/// gives that expression, and it gives an expression only where the text
/// spells it. Else it gives the first error of the tokens, or, where the
/// tokens have none, the error with which the run of the machine over them
/// ends.
pub open spec fn parse_outcome(table: LrTable, text: Seq<char>, result: ParseResult<Expr>) -> bool {
    &&& forall|e: ExprView| #[trigger]
        text_spells(text, e) ==> result_view(result) == Ok::<ExprView, ParseErrorView>(e)
    &&& result matches Ok(e) ==> text_spells(text, e@)
    &&& match tokens_of(text) {
        Err(e) => result_view(result) == Err::<ExprView, ParseErrorView>(e),
        Ok(tokens) => machine_result(table, tokens, result_view(result)),
    }
}

/// The terminals among the first `n` for which the state has an action, in
/// the order of their declaration.
pub open spec fn expected_in(table: LrTable, state: int, n: int) -> Seq<TokenType>
    decreases n,
{
    if n <= 0 {
        Seq::empty()
    } else if table.action_entry(state, TokenType::at_ordinal(n - 1)) is Some {
        expected_in(table, state, n - 1).push(TokenType::at_ordinal(n - 1))
    } else {
        expected_in(table, state, n - 1)
    }
}

} // verus!
