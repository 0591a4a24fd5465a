//! Lexer for tokenizing calculator expressions

use crate::error::{ParseError, ParseErrorView, ParseResult};
use crate::token::{Token, TokenType, TokenView};
use vstd::prelude::*;

verus! {

/// Where a scan of a text stands: the text, the index of the next character,
/// and that character's line and column.
pub struct LexerState {
    pub input: Seq<char>,
    pub current: int,
    pub line: int,
    pub column: int,
}

/// A decimal digit.
pub open spec fn is_digit(c: char) -> bool {
    '0' <= c && c <= '9'
}

/// Space, tab, carriage return and line feed separate tokens.
pub open spec fn is_blank(c: char) -> bool {
    c == ' ' || c == '\t' || c == '\r' || c == '\n'
}

/// The token type of an operator or parenthesis character.
pub open spec fn sign_type(c: char) -> Option<TokenType> {
    if c == '+' {
        Some(TokenType::Plus)
    } else if c == '-' {
        Some(TokenType::Minus)
    } else if c == '*' {
        Some(TokenType::Star)
    } else if c == '/' {
        Some(TokenType::Slash)
    } else if c == '(' {
        Some(TokenType::LeftParen)
    } else if c == ')' {
        Some(TokenType::RightParen)
    } else {
        None
    }
}

impl LexerState {
    /// No character is left.
    pub open spec fn at_end(self) -> bool {
        self.current >= self.input.len()
    }

    /// The state behind the next character: one column further, or at the
    /// start of the next line behind a line feed.
    pub open spec fn step(self) -> LexerState {
        if self.input[self.current] == '\n' {
            LexerState {
                input: self.input,
                current: self.current + 1,
                line: self.line + 1,
                column: 1,
            }
        } else {
            LexerState {
                input: self.input,
                current: self.current + 1,
                line: self.line,
                column: self.column + 1,
            }
        }
    }

    /// The state behind `n` characters of one line.
    pub open spec fn forward(self, n: int) -> LexerState {
        LexerState {
            input: self.input,
            current: self.current + n,
            line: self.line,
            column: self.column + n,
        }
    }

    /// The state behind the blanks that come next.
    pub open spec fn skip_blanks(self) -> LexerState
        decreases self.input.len() - self.current,
    {
        if 0 <= self.current < self.input.len() && is_blank(self.input[self.current]) {
            self.step().skip_blanks()
        } else {
            self
        }
    }

    /// The end token at this place.
    pub open spec fn eof(self) -> TokenView {
        TokenView {
            token_type: TokenType::Eof,
            lexeme: Seq::empty(),
            line: self.line as usize,
            column: self.column as usize,
        }
    }

    /// The token of `n` characters of the given type at this place.
    pub open spec fn token(self, token_type: TokenType, n: int) -> TokenView {
        TokenView {
            token_type,
            lexeme: self.input.subrange(self.current, self.current + n),
            line: self.line as usize,
            column: self.column as usize,
        }
    }

    /// What the next token is, from a state that stands at a character which
    /// is no blank: an operator or parenthesis, a number, or the error of a
    /// character that begins no token.
    pub open spec fn token_here(self) -> Result<TokenView, ParseErrorView> {
        let c = self.input[self.current];
        if sign_type(c) is Some {
            Ok(self.token(sign_type(c)->Some_0, 1))
        } else if is_digit(c) {
            Ok(self.token(TokenType::Number, number_end(self.input, self.current) - self.current))
        } else {
            Err(
                ParseErrorView::UnexpectedChar {
                    char: c,
                    line: self.line as usize,
                    column: self.column as usize,
                },
            )
        }
    }

    /// The state behind the next token, from a state that stands at a
    /// character which is no blank.
    pub open spec fn behind_token(self) -> LexerState {
        let c = self.input[self.current];
        if sign_type(c) is None && is_digit(c) {
            self.forward(number_end(self.input, self.current) - self.current)
        } else {
            self.forward(1)
        }
    }

    /// The next token: the end token if only blanks are left, else the token
    /// behind the blanks.
    pub open spec fn next_token(self) -> Result<TokenView, ParseErrorView> {
        let s = self.skip_blanks();
        if s.at_end() {
            Ok(s.eof())
        } else {
            s.token_here()
        }
    }

    /// The state behind the next token.
    pub open spec fn behind_next(self) -> LexerState {
        let s = self.skip_blanks();
        if s.at_end() {
            s
        } else {
            s.behind_token()
        }
    }

    /// Where reading all tokens from here on ends: at the end of the text,
    /// or behind the character that begins no token.
    pub open spec fn rest(self) -> LexerState
        decreases self.input.len() - self.current,
        when 0 <= self.current
    {
        let s = self.skip_blanks();
        if s.at_end() {
            s
        } else {
            proof {
                lemma_skip_blanks_advances(self);
                lemma_behind_token_bounds(s);
            }
            match s.token_here() {
                Err(_) => s.behind_token(),
                Ok(_) => s.behind_token().rest(),
            }
        }
    }

    /// All tokens from here on, with the end token as the last; or the first
    /// error.
    pub open spec fn tokens(self) -> Result<Seq<TokenView>, ParseErrorView>
        decreases self.input.len() - self.current,
        when 0 <= self.current
    {
        let s = self.skip_blanks();
        if s.at_end() {
            Ok(seq![s.eof()])
        } else {
            proof {
                lemma_skip_blanks_advances(self);
                lemma_behind_token_bounds(s);
            }
            match s.token_here() {
                Err(e) => Err(e),
                Ok(token) => match s.behind_token().tokens() {
                    Err(e) => Err(e),
                    Ok(rest) => Ok(seq![token] + rest),
                },
            }
        }
    }
}

/// Where the digits that begin at `from` end.
pub open spec fn digits_end(input: Seq<char>, from: int) -> int
    decreases input.len() - from,
{
    if 0 <= from < input.len() && is_digit(input[from]) {
        digits_end(input, from + 1)
    } else {
        from
    }
}

/// Where the number that begins with the digit at `start` ends: behind its
/// digits, and behind a point and further digits if a point and a digit
/// follow.
pub open spec fn number_end(input: Seq<char>, start: int) -> int {
    let whole = digits_end(input, start + 1);
    if whole + 1 < input.len() && input[whole] == '.' && is_digit(input[whole + 1]) {
        digits_end(input, whole + 2)
    } else {
        whole
    }
}

/// The digits end within the text, not before they begin.
pub proof fn lemma_digits_end_bounds(input: Seq<char>, from: int)
    requires
        0 <= from <= input.len(),
    ensures
        from <= digits_end(input, from) <= input.len(),
    decreases input.len() - from,
{
    if from < input.len() && is_digit(input[from]) {
        lemma_digits_end_bounds(input, from + 1);
    }
}

/// Skipping blanks keeps the state in order, and ends at the end of the text or
/// before a character that is no blank.
pub proof fn lemma_skip_blanks_bounds(s: LexerState)
    requires
        0 <= s.current <= s.input.len(),
        1 <= s.line <= s.current + 1,
        1 <= s.column <= s.current + 1,
    ensures
        s.current <= s.skip_blanks().current <= s.input.len(),
        1 <= s.skip_blanks().line <= s.skip_blanks().current + 1,
        1 <= s.skip_blanks().column <= s.skip_blanks().current + 1,
        s.skip_blanks().input == s.input,
        s.skip_blanks().at_end() || !is_blank(s.skip_blanks().input[s.skip_blanks().current]),
    decreases s.input.len() - s.current,
{
    if s.current < s.input.len() && is_blank(s.input[s.current]) {
        lemma_skip_blanks_bounds(s.step());
    }
}

/// Lexer for tokenizing input strings
pub struct Lexer {
    input: Vec<char>,
    current: usize,
    line: usize,
    column: usize,
}

impl View for Lexer {
    type V = LexerState;

    closed spec fn view(&self) -> LexerState {
        LexerState {
            input: self.input@,
            current: self.current as int,
            line: self.line as int,
            column: self.column as int,
        }
    }
}

impl Lexer {
    /// The position is within the text, and line and column are what so many
    /// characters can have brought.
    pub open spec fn wf(&self) -> bool {
        &&& 0 <= self@.current <= self@.input.len() < usize::MAX
        &&& 1 <= self@.line <= self@.current + 1
        &&& 1 <= self@.column <= self@.current + 1
    }

    /// Create a new lexer for the given input
    pub fn new(input: &str) -> (lexer: Lexer)
        requires
            input@.len() < usize::MAX,
        ensures
            lexer.wf(),
            lexer@ == (LexerState { input: input@, current: 0, line: 1, column: 1 }),
    {
        let mut chars: Vec<char> = Vec::new();
        for c in it: input.chars()
            invariant
                chars@ == input@.take(it.index() as int),
                it.seq() == input@,
        {
            chars.push(c);
            assert(input@.take(it.index() + 1) =~= input@.take(it.index() as int).push(c));
        }
        assert(input@.take(input@.len() as int) =~= input@);
        Lexer { input: chars, current: 0, line: 1, column: 1 }
    }

    /// Tokenize the entire input
    pub fn tokenize(&mut self) -> (result: ParseResult<Vec<Token>>)
        requires
            old(self).wf(),
        ensures
            final(self).wf(),
            final(self)@ == old(self)@.rest(),
            match result {
                Ok(tokens) => old(self)@.tokens() == Ok::<Seq<TokenView>, ParseErrorView>(
                    tokens_view(tokens@),
                ),
                Err(e) => old(self)@.tokens() == Err::<Seq<TokenView>, ParseErrorView>(e@),
            },
    {
        let mut tokens: Vec<Token> = Vec::new();

        while !self.is_at_end()
            invariant
                self.wf(),
                self@.input == old(self)@.input,
                old(self)@.rest() == self@.rest(),
                old(self)@.tokens() == (match self@.tokens() {
                    Ok(rest) => Ok::<Seq<TokenView>, ParseErrorView>(tokens_view(tokens@) + rest),
                    Err(e) => Err(e),
                }),
            ensures
                self@.at_end(),
                self@.skip_blanks() == self@,
            decreases self@.input.len() - self@.current,
        {
            let ghost before = self@;
            proof {
                lemma_skip_blanks_bounds(before);
            }
            self.skip_whitespace();
            if self.is_at_end() {
                proof {
                    lemma_skip_idempotent(before);
                }
                break ;
            }
            let ghost here = self@;
            proof {
                lemma_skip_idempotent(before);
                lemma_behind_token_bounds(here);
            }
            let token = match self.next_token() {
                Ok(token) => token,
                Err(e) => {
                    return Err(e);
                },
            };
            proof {
                let rest = here.behind_token().tokens();
                assert(tokens_view(tokens@.push(token)) =~= tokens_view(tokens@).push(token@));
                if rest is Ok {
                    assert(tokens_view(tokens@) + (seq![token@] + rest->Ok_0) =~= tokens_view(
                        tokens@.push(token),
                    ) + rest->Ok_0);
                }
            }
            tokens.push(token);
        }

        let last = Token::eof(self.line, self.column);
        proof {
            lemma_skip_blanks_bounds(self@);
            assert(tokens_view(tokens@.push(last)) =~= tokens_view(tokens@).push(self@.eof()));
            assert(self@.tokens() == Ok::<Seq<TokenView>, ParseErrorView>(seq![self@.eof()]));
            assert(self@.rest() == self@);
            assert(tokens_view(tokens@) + seq![self@.eof()] =~= tokens_view(tokens@).push(
                self@.eof(),
            ));
        }
        tokens.push(last);
        Ok(tokens)
    }

    /// Get the next token
    pub fn next_token(&mut self) -> (result: ParseResult<Token>)
        requires
            old(self).wf(),
        ensures
            final(self).wf(),
            final(self)@ == old(self)@.behind_next(),
            match result {
                Ok(token) => old(self)@.next_token() == Ok::<TokenView, ParseErrorView>(token@),
                Err(e) => old(self)@.next_token() == Err::<TokenView, ParseErrorView>(e@),
            },
    {
        proof {
            lemma_skip_blanks_bounds(self@);
        }
        self.skip_whitespace();

        if self.is_at_end() {
            return Ok(Token::eof(self.line, self.column));
        }
        let ghost here = self@;
        proof {
            lemma_behind_token_bounds(here);
        }
        let start_column = self.column;
        let ch = self.advance();

        let token_type = match ch {
            '+' => TokenType::Plus,
            '-' => TokenType::Minus,
            '*' => TokenType::Star,
            '/' => TokenType::Slash,
            '(' => TokenType::LeftParen,
            ')' => TokenType::RightParen,
            '0'..='9' => {
                return self.number(start_column);
            },
            _ => {
                return Err(ParseError::unexpected_char(ch, self.line, start_column));
            },
        };

        let mut lexeme = String::new();
        lexeme.push(ch);
        assert(lexeme@ =~= here.input.subrange(here.current, here.current + 1));
        Ok(Token::new(token_type, lexeme, self.line, start_column))
    }

    /// Parse a number token
    fn number(&mut self, start_column: usize) -> (result: ParseResult<Token>)
        requires
            old(self).wf(),
            old(self)@.current >= 1,
            is_digit(old(self)@.input[old(self)@.current - 1]),
            start_column + 1 == old(self)@.column,
        ensures
            final(self).wf(),
            final(self)@ == old(self)@.forward(
                number_end(old(self)@.input, old(self)@.current - 1) - old(self)@.current,
            ),
            match result {
                Ok(token) => token@ == (TokenView {
                    token_type: TokenType::Number,
                    lexeme: old(self)@.input.subrange(
                        old(self)@.current - 1,
                        number_end(old(self)@.input, old(self)@.current - 1),
                    ),
                    line: old(self)@.line as usize,
                    column: start_column,
                }),
                Err(_) => false,
            },
    {
        let start = self.current - 1;
        let ghost input = self@.input;

        // Consume integer part
        self.digits();

        // Check for decimal part
        let point = match self.peek() {
            Some(ch) => ch == '.',
            None => false,
        };
        let digit_follows = match self.peek_next() {
            Some(ch) => ch >= '0' && ch <= '9',
            None => false,
        };
        if point && digit_follows {
            self.advance();  // Consume '.'
            // Consume fractional part
            self.digits();
        }
        proof {
            lemma_digits_end_bounds(input, start + 1);
            let whole = digits_end(input, start + 1);
            if whole + 1 < input.len() {
                lemma_digits_end_bounds(input, whole + 2);
            }
        }
        let mut lexeme = String::new();
        let mut i = start;
        while i < self.current
            invariant
                start <= i <= self.current <= self.input.len(),
                lexeme@ == self.input@.subrange(start as int, i as int),
            decreases self.current - i,
        {
            lexeme.push(self.input[i]);
            assert(self.input@.subrange(start as int, i + 1) =~= self.input@.subrange(
                start as int,
                i as int,
            ).push(self.input@[i as int]));
            i += 1;
        }

        Ok(
            Token {
                token_type: TokenType::Number,
                lexeme,
                line: self.line,
                column: start_column,
            },
        )
    }

    /// Consumes the digits that come next.
    fn digits(&mut self)
        requires
            old(self).wf(),
        ensures
            final(self).wf(),
            final(self)@ == old(self)@.forward(
                digits_end(old(self)@.input, old(self)@.current) - old(self)@.current,
            ),
    {
        proof {
            lemma_digits_end_bounds(self@.input, self@.current);
        }
        loop
            invariant
                self.wf(),
                self@.input == old(self)@.input,
                self@.line == old(self)@.line,
                self@.column - self@.current == old(self)@.column - old(self)@.current,
                old(self)@.current <= self@.current,
                digits_end(self@.input, self@.current) == digits_end(
                    old(self)@.input,
                    old(self)@.current,
                ),
            ensures
                self@.current == digits_end(old(self)@.input, old(self)@.current),
            decreases self@.input.len() - self@.current,
        {
            let more = match self.peek() {
                Some(ch) => ch >= '0' && ch <= '9',
                None => false,
            };
            if !more {
                break ;
            }
            self.advance();
        }
    }

    /// Skip whitespace characters
    pub fn skip_whitespace(&mut self)
        requires
            old(self).wf(),
        ensures
            final(self).wf(),
            final(self)@ == old(self)@.skip_blanks(),
    {
        loop
            invariant
                self.wf(),
                self@.skip_blanks() == old(self)@.skip_blanks(),
            ensures
                self@ == old(self)@.skip_blanks(),
            decreases self@.input.len() - self@.current,
        {
            match self.peek() {
                Some(ch) => {
                    if ch == ' ' || ch == '\t' || ch == '\r' {
                        self.advance();
                    } else if ch == '\n' {
                        self.current += 1;
                        self.line += 1;
                        self.column = 1;
                    } else {
                        break ;
                    }
                },
                None => {
                    break ;
                },
            }
        }
    }

    /// Check if we've reached the end of input
    pub fn is_at_end(&self) -> (at_end: bool)
        ensures
            at_end == self@.at_end(),
    {
        self.current >= self.input.len()
    }

    /// Peek at the current character without consuming it
    pub fn peek(&self) -> (ch: Option<char>)
        ensures
            ch == (if 0 <= self@.current < self@.input.len() {
                Some(self@.input[self@.current])
            } else {
                None
            }),
    {
        if self.current < self.input.len() {
            Some(self.input[self.current])
        } else {
            None
        }
    }

    /// Peek at the next character without consuming it
    pub fn peek_next(&self) -> (ch: Option<char>)
        ensures
            ch == (if 0 <= self@.current + 1 < self@.input.len() {
                Some(self@.input[self@.current + 1])
            } else {
                None
            }),
    {
        if self.current < self.input.len() && self.current + 1 < self.input.len() {
            Some(self.input[self.current + 1])
        } else {
            None
        }
    }

    /// Advance to the next character and return the current one
    pub fn advance(&mut self) -> (ch: char)
        requires
            old(self).wf(),
            !old(self)@.at_end(),
        ensures
            final(self).wf(),
            ch == old(self)@.input[old(self)@.current],
            final(self)@ == old(self)@.forward(1),
    {
        let ch = self.input[self.current];
        self.current += 1;
        self.column += 1;
        ch
    }

    /// The next token, or nothing at the end of the input.
    pub fn next(&mut self) -> (item: Option<ParseResult<Token>>)
        requires
            old(self).wf(),
        ensures
            final(self).wf(),
            old(self)@.at_end() <==> item is None,
            item is None ==> final(self)@ == old(self)@,
            item is Some ==> final(self)@ == old(self)@.behind_next() && (match item->Some_0 {
                Ok(token) => old(self)@.next_token() == Ok::<TokenView, ParseErrorView>(token@),
                Err(e) => old(self)@.next_token() == Err::<TokenView, ParseErrorView>(e@),
            }),
    {
        if self.is_at_end() {
            None
        } else {
            Some(self.next_token())
        }
    }
}

/// The tokens as mathematical values.
pub open spec fn tokens_view(tokens: Seq<Token>) -> Seq<TokenView> {
    Seq::new(tokens.len(), |i: int| tokens[i]@)
}

/// Skipping blanks does not go back.
pub proof fn lemma_skip_blanks_advances(s: LexerState)
    requires
        0 <= s.current,
    ensures
        s.current <= s.skip_blanks().current,
        s.skip_blanks().input == s.input,
    decreases s.input.len() - s.current,
{
    if s.current < s.input.len() && is_blank(s.input[s.current]) {
        lemma_skip_blanks_advances(s.step());
    }
}

/// The tokens of a text end with exactly one end token.
pub proof fn lemma_tokens_end(s: LexerState)
    requires
        0 <= s.current,
        s.tokens() is Ok,
    ensures
        s.tokens()->Ok_0.len() > 0,
        s.tokens()->Ok_0.last().token_type == TokenType::Eof,
        forall|i: int|
            0 <= i < s.tokens()->Ok_0.len() - 1 ==> (#[trigger] s.tokens()->Ok_0[i]).token_type
                != TokenType::Eof,
    decreases s.input.len() - s.current,
{
    let here = s.skip_blanks();
    if !here.at_end() {
        lemma_skip_blanks_advances(s);
        lemma_behind_token_bounds(here);
        let token = here.token_here()->Ok_0;
        let rest = here.behind_token().tokens()->Ok_0;
        lemma_tokens_end(here.behind_token());
        let all = s.tokens()->Ok_0;
        assert(all == seq![token] + rest);
        assert(all.last() == rest.last());
        assert forall|i: int| 0 <= i < all.len() - 1 implies (#[trigger] all[i]).token_type
            != TokenType::Eof by {
            if i > 0 {
                assert(all[i] == rest[i - 1]);
            }
        }
    }
}

/// Behind the blanks there are no blanks to skip.
pub proof fn lemma_skip_idempotent(s: LexerState)
    requires
        0 <= s.current <= s.input.len(),
    ensures
        s.skip_blanks().skip_blanks() == s.skip_blanks(),
    decreases s.input.len() - s.current,
{
    if s.current < s.input.len() && is_blank(s.input[s.current]) {
        lemma_skip_idempotent(s.step());
    }
}

/// A token has at least one character and ends within the text.
pub proof fn lemma_behind_token_bounds(s: LexerState)
    requires
        0 <= s.current < s.input.len(),
    ensures
        s.current < s.behind_token().current <= s.input.len(),
        s.behind_token().input == s.input,
{
    lemma_digits_end_bounds(s.input, s.current + 1);
    let whole = digits_end(s.input, s.current + 1);
    if whole + 1 < s.input.len() {
        lemma_digits_end_bounds(s.input, whole + 2);
    }
}

} // verus!
