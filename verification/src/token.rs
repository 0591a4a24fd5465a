//! Token categories, tokens and sets of token categories.

use vstd::prelude::*;

verus! {

/// The categories of input symbols of the calculator language. They are the
/// terminals of its grammar.
#[derive(Debug, Clone, Copy, PartialEq, Eq, Hash, Structural)]
pub enum TokenType {
    // Literals
    Number,
    // Operators
    Plus,
    Minus,
    Star,
    Slash,
    // Delimiters
    LeftParen,
    RightParen,
    // Special
    Eof,
}

impl TokenType {
    /// Position of the category in declaration order.
    pub open spec fn ordinal(self) -> int {
        match self {
            TokenType::Number => 0,
            TokenType::Plus => 1,
            TokenType::Minus => 2,
            TokenType::Star => 3,
            TokenType::Slash => 4,
            TokenType::LeftParen => 5,
            TokenType::RightParen => 6,
            TokenType::Eof => 7,
        }
    }

    /// The category at a position of the declaration order.
    pub open spec fn at_ordinal(i: int) -> TokenType {
        if i == 0 {
            TokenType::Number
        } else if i == 1 {
            TokenType::Plus
        } else if i == 2 {
            TokenType::Minus
        } else if i == 3 {
            TokenType::Star
        } else if i == 4 {
            TokenType::Slash
        } else if i == 5 {
            TokenType::LeftParen
        } else if i == 6 {
            TokenType::RightParen
        } else {
            TokenType::Eof
        }
    }

    /// `ordinal` and `at_ordinal` are inverse to each other.
    pub proof fn lemma_ordinal_bijective()
        ensures
            forall|t: TokenType| 0 <= #[trigger] t.ordinal() < 8,
            forall|t: TokenType| TokenType::at_ordinal(#[trigger] t.ordinal()) == t,
            forall|i: int| 0 <= i < 8 ==> (#[trigger] TokenType::at_ordinal(i)).ordinal() == i,
    {
    }

    /// The position as a machine number.
    pub fn index(self) -> (i: usize)
        ensures
            i == self.ordinal(),
            i < 8,
    {
        match self {
            TokenType::Number => 0,
            TokenType::Plus => 1,
            TokenType::Minus => 2,
            TokenType::Star => 3,
            TokenType::Slash => 4,
            TokenType::LeftParen => 5,
            TokenType::RightParen => 6,
            TokenType::Eof => 7,
        }
    }

    /// The category at a position.
    pub fn from_index(i: usize) -> (t: TokenType)
        requires
            i < 8,
        ensures
            t == TokenType::at_ordinal(i as int),
            t.ordinal() == i,
    {
        if i == 0 {
            TokenType::Number
        } else if i == 1 {
            TokenType::Plus
        } else if i == 2 {
            TokenType::Minus
        } else if i == 3 {
            TokenType::Star
        } else if i == 4 {
            TokenType::Slash
        } else if i == 5 {
            TokenType::LeftParen
        } else if i == 6 {
            TokenType::RightParen
        } else {
            TokenType::Eof
        }
    }

    /// The name of the category as diagnostics print it.
    pub open spec fn spec_name(self) -> Seq<char> {
        match self {
            TokenType::Number => "Number"@,
            TokenType::Plus => "Plus"@,
            TokenType::Minus => "Minus"@,
            TokenType::Star => "Star"@,
            TokenType::Slash => "Slash"@,
            TokenType::LeftParen => "LeftParen"@,
            TokenType::RightParen => "RightParen"@,
            TokenType::Eof => "Eof"@,
        }
    }

    /// The name of the category.
    pub fn name(&self) -> (s: &'static str)
        ensures
            s@ == self.spec_name(),
    {
        match self {
            TokenType::Number => "Number",
            TokenType::Plus => "Plus",
            TokenType::Minus => "Minus",
            TokenType::Star => "Star",
            TokenType::Slash => "Slash",
            TokenType::LeftParen => "LeftParen",
            TokenType::RightParen => "RightParen",
            TokenType::Eof => "Eof",
        }
    }

    /// Get the precedence of an operator token
    pub fn precedence(&self) -> (p: Option<u8>)
        ensures
            p == match *self {
                TokenType::Plus | TokenType::Minus => Some(1u8),
                TokenType::Star | TokenType::Slash => Some(2u8),
                _ => None,
            },
    {
        match self {
            TokenType::Plus | TokenType::Minus => Some(1),
            TokenType::Star | TokenType::Slash => Some(2),
            _ => None,
        }
    }

    /// Check if this token type is a binary operator
    pub fn is_binary_op(&self) -> (b: bool)
        ensures
            b == (*self is Plus || *self is Minus || *self is Star || *self is Slash),
    {
        match self {
            TokenType::Plus | TokenType::Minus | TokenType::Star | TokenType::Slash => true,
            _ => false,
        }
    }

    /// Check if this token type is a unary operator
    pub fn is_unary_op(&self) -> (b: bool)
        ensures
            b == (*self is Minus),
    {
        match self {
            TokenType::Minus => true,
            _ => false,
        }
    }
}

/// What a token is, without the machine representation of its text.
pub struct TokenView {
    pub token_type: TokenType,
    pub lexeme: Seq<char>,
    pub line: usize,
    pub column: usize,
}

/// A token with its category, its text as written, and its position. The value
/// of a number token is the decimal number that its text spells.
#[derive(Debug, Clone, PartialEq)]
pub struct Token {
    pub token_type: TokenType,
    pub lexeme: String,
    pub line: usize,
    pub column: usize,
}

impl View for Token {
    type V = TokenView;

    open spec fn view(&self) -> TokenView {
        TokenView {
            token_type: self.token_type,
            lexeme: self.lexeme@,
            line: self.line,
            column: self.column,
        }
    }
}

impl Token {
    /// Create a new token
    pub fn new(token_type: TokenType, lexeme: String, line: usize, column: usize) -> (t: Token)
        ensures
            t.token_type == token_type,
            t.lexeme == lexeme,
            t.line == line,
            t.column == column,
    {
        Token { token_type, lexeme, line, column }
    }

    /// Create an EOF token
    pub fn eof(line: usize, column: usize) -> (t: Token)
        ensures
            t@ == (TokenView {
                token_type: TokenType::Eof,
                lexeme: Seq::<char>::empty(),
                line,
                column,
            }),
    {
        Token { token_type: TokenType::Eof, lexeme: String::new(), line, column }
    }

    /// A token with the same category, text and position.
    pub fn duplicate(&self) -> (t: Token)
        ensures
            t == *self,
    {
        Token {
            token_type: self.token_type,
            lexeme: self.lexeme.clone(),
            line: self.line,
            column: self.column,
        }
    }
}

/// A set of token categories.
#[derive(Debug, Clone, Copy, PartialEq, Eq)]
pub struct TerminalSet {
    members: [bool; 8],
}

impl View for TerminalSet {
    type V = Set<TokenType>;

    closed spec fn view(&self) -> Set<TokenType> {
        Set::new(|t: TokenType| self.members@[t.ordinal()])
    }
}

/// One for a condition that holds, zero for one that does not.
pub open spec fn one_if(b: bool) -> nat {
    if b {
        1
    } else {
        0
    }
}

impl TerminalSet {
    /// How many categories are in the set.
    pub closed spec fn count(&self) -> nat {
        one_if(self.members@[0]) + one_if(self.members@[1]) + one_if(self.members@[2]) + one_if(
            self.members@[3],
        ) + one_if(self.members@[4]) + one_if(self.members@[5]) + one_if(self.members@[6]) + one_if(
            self.members@[7],
        )
    }

    /// How many categories are not in the set.
    pub open spec fn vacancies(&self) -> nat {
        (8 - self.count()) as nat
    }

    /// A set has at most eight members, and none exactly when it is empty.
    pub proof fn lemma_count_bounds(&self)
        ensures
            self.count() <= 8,
            self.count() == 0 <==> self@ == Set::<TokenType>::empty(),
    {
        if self.count() == 0 {
            assert(self@ =~= Set::<TokenType>::empty());
        } else {
            let i: int = if self.members@[0] {
                0
            } else if self.members@[1] {
                1
            } else if self.members@[2] {
                2
            } else if self.members@[3] {
                3
            } else if self.members@[4] {
                4
            } else if self.members@[5] {
                5
            } else if self.members@[6] {
                6
            } else {
                7
            };
            assert(self@.contains(TokenType::at_ordinal(i)));
        }
    }

    /// Two sets with the same members are the same value.
    pub proof fn lemma_extensional(&self, other: &TerminalSet)
        ensures
            (self@ == other@) <==> (*self == *other),
    {
        if self@ == other@ {
            assert forall|i: int| 0 <= i < 8 implies self.members@[i] == other.members@[i] by {
                let t = TokenType::at_ordinal(i);
                assert(self@.contains(t) == other@.contains(t));
            }
            assert(self.members =~= other.members);
        }
    }

    /// The empty set.
    pub fn new() -> (s: TerminalSet)
        ensures
            s@ == Set::<TokenType>::empty(),
            s.count() == 0,
    {
        let s = TerminalSet { members: [false; 8] };
        assert(s@ =~= Set::<TokenType>::empty());
        s
    }

    /// The set of one category.
    pub fn singleton(t: TokenType) -> (s: TerminalSet)
        ensures
            s@ == set![t],
            s.count() == 1,
    {
        let mut s = TerminalSet::new();
        s.insert(t);
        assert(s@ =~= set![t]);
        s
    }

    /// Adds a category; tells whether it was new.
    pub fn insert(&mut self, t: TokenType) -> (added: bool)
        ensures
            final(self)@ == old(self)@.insert(t),
            added == !old(self)@.contains(t),
            final(self).count() == old(self).count() + one_if(added),
    {
        let i = t.index();
        let was = self.members[i];
        self.members[i] = true;
        assert(self@ =~= old(self)@.insert(t));
        !was
    }

    /// Whether the category is in the set.
    pub fn contains(&self, t: &TokenType) -> (b: bool)
        ensures
            b == self@.contains(*t),
    {
        self.members[t.index()]
    }

    /// Adds every category of `other`; tells whether the set grew.
    pub fn extend(&mut self, other: &TerminalSet) -> (grew: bool)
        ensures
            final(self)@ == old(self)@.union(other@),
            grew == (final(self)@ != old(self)@),
            grew ==> final(self).count() > old(self).count(),
            !grew ==> *final(self) == *old(self),
    {
        let mut grew = false;
        let mut i: usize = 0;
        while i < 8
            invariant
                i <= 8,
                forall|j: int| 0 <= j < i ==>
                    #[trigger] self.members@[j] == (old(self).members@[j] || other.members@[j]),
                forall|j: int| i <= j < 8 ==> #[trigger] self.members@[j] == old(self).members@[j],
                grew ==> self.count() > old(self).count(),
                !grew ==> *self == *old(self),
                self.count() >= old(self).count(),
            decreases 8 - i,
        {
            if other.members[i] && !self.members[i] {
                self.members[i] = true;
                grew = true;
            }
            i += 1;
        }
        assert(self@ =~= old(self)@.union(other@));
        proof {
            if grew {
                self.lemma_extensional(old(self));
            }
        }
        grew
    }

    /// Whether both sets hold the same categories.
    pub fn same(&self, other: &TerminalSet) -> (b: bool)
        ensures
            b == (self@ == other@),
    {
        let mut i: usize = 0;
        while i < 8
            invariant
                i <= 8,
                forall|j: int| 0 <= j < i ==> self.members@[j] == other.members@[j],
            decreases 8 - i,
        {
            if self.members[i] != other.members[i] {
                proof {
                    let t = TokenType::at_ordinal(i as int);
                    assert(self@.contains(t) != other@.contains(t));
                }
                return false;
            }
            i += 1;
        }
        assert(self@ =~= other@);
        true
    }

    /// The members among the first `n` categories.
    closed spec fn upto(&self, n: int) -> Set<TokenType> {
        Set::new(|t: TokenType| t.ordinal() < n && self.members@[t.ordinal()])
    }

    /// How many of the first `n` categories are members.
    closed spec fn count_upto(&self, n: int) -> nat
        decreases n,
    {
        if n <= 0 {
            0
        } else {
            self.count_upto(n - 1) + one_if(self.members@[n - 1])
        }
    }

    proof fn lemma_upto(&self, n: int)
        requires
            0 <= n <= 8,
        ensures
            self.upto(n).finite(),
            self.upto(n).len() == self.count_upto(n),
        decreases n,
    {
        if n == 0 {
            assert(self.upto(0) =~= Set::<TokenType>::empty());
        } else {
            self.lemma_upto(n - 1);
            let t = TokenType::at_ordinal(n - 1);
            if self.members@[n - 1] {
                assert(self.upto(n) =~= self.upto(n - 1).insert(t));
            } else {
                assert(self.upto(n) =~= self.upto(n - 1));
            }
        }
    }

    /// The set is finite, and `count` is the number of its members.
    pub proof fn lemma_count(&self)
        ensures
            self@.finite(),
            self@.len() == self.count(),
    {
        self.lemma_upto(8);
        assert(self@ =~= self.upto(8));
        reveal_with_fuel(TerminalSet::count_upto, 9);
    }

    /// How many categories are in the set.
    pub fn len(&self) -> (n: usize)
        ensures
            self@.finite(),
            n == self@.len(),
            n == self.count(),
    {
        proof {
            self.lemma_count();
        }
        let mut n: usize = 0;
        let mut i: usize = 0;
        while i < 8
            invariant
                i <= 8,
                n <= i,
                n == (if i > 0 { one_if(self.members@[0]) } else { 0 })
                    + (if i > 1 { one_if(self.members@[1]) } else { 0 })
                    + (if i > 2 { one_if(self.members@[2]) } else { 0 })
                    + (if i > 3 { one_if(self.members@[3]) } else { 0 })
                    + (if i > 4 { one_if(self.members@[4]) } else { 0 })
                    + (if i > 5 { one_if(self.members@[5]) } else { 0 })
                    + (if i > 6 { one_if(self.members@[6]) } else { 0 })
                    + (if i > 7 { one_if(self.members@[7]) } else { 0 }),
            decreases 8 - i,
        {
            if self.members[i] {
                n += 1;
            }
            i += 1;
        }
        n
    }

    /// Whether the set has no member.
    pub fn is_empty(&self) -> (b: bool)
        ensures
            b == (self@ == Set::<TokenType>::empty()),
    {
        proof {
            self.lemma_count_bounds();
        }
        self.len() == 0
    }

    /// The members in declaration order.
    pub fn to_vec(&self) -> (v: Vec<TokenType>)
        ensures
            forall|t: TokenType| v@.contains(t) <==> self@.contains(t),
            forall|i: int, j: int| 0 <= i < j < v.len() ==> v[i].ordinal() < v[j].ordinal(),
            v.len() == self.count(),
    {
        let mut v: Vec<TokenType> = Vec::new();
        let mut i: usize = 0;
        while i < 8
            invariant
                i <= 8,
                forall|k: int| 0 <= k < v.len() ==>
                    v[k].ordinal() < i && self@.contains(#[trigger] v[k]),
                forall|t: TokenType| t.ordinal() < i && self@.contains(t) ==> v@.contains(t),
                forall|a: int, b: int| 0 <= a < b < v.len() ==> v[a].ordinal() < v[b].ordinal(),
                v.len() == (if i > 0 { one_if(self.members@[0]) } else { 0 })
                    + (if i > 1 { one_if(self.members@[1]) } else { 0 })
                    + (if i > 2 { one_if(self.members@[2]) } else { 0 })
                    + (if i > 3 { one_if(self.members@[3]) } else { 0 })
                    + (if i > 4 { one_if(self.members@[4]) } else { 0 })
                    + (if i > 5 { one_if(self.members@[5]) } else { 0 })
                    + (if i > 6 { one_if(self.members@[6]) } else { 0 })
                    + (if i > 7 { one_if(self.members@[7]) } else { 0 }),
            decreases 8 - i,
        {
            if self.members[i] {
                let t = TokenType::from_index(i);
                let ghost before = v@;
                v.push(t);
                assert forall|u: TokenType| u.ordinal() < i + 1 && self@.contains(u) implies
                    v@.contains(u) by {
                    if u.ordinal() < i {
                        assert(before.contains(u));
                        let k = choose|k: int| 0 <= k < before.len() && before[k] == u;
                        assert(v@[k] == u);
                    } else {
                        assert(u == t);
                        assert(v@[v.len() - 1] == u);
                    }
                }
            } else {
                assert forall|u: TokenType| u.ordinal() < i + 1 && self@.contains(u) implies
                    v@.contains(u) by {
                    if u.ordinal() == i {
                        assert(false);
                    }
                }
            }
            i += 1;
        }
        assert forall|t: TokenType| v@.contains(t) implies self@.contains(t) by {
            let k = choose|k: int| 0 <= k < v.len() && v[k] == t;
            assert(self@.contains(v[k]));
        }
        v
    }
}

} // verus!
