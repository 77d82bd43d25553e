use vstd::prelude::*;
use crate::text::{str_to_chars, trim_chars, chars_to_string, trim, append_str};

verus! {

/// Identifies tokens in the token tree and on the parse stack.
#[derive(Debug, Copy, Clone, PartialEq, Eq, Structural)]
pub enum TokenType {
    /// Represents an empty parse stack.
    Empty,
    /// Any subgoal, such as `$NP = [$H | $T]`.
    Subgoal,
    Comma,
    Semicolon,
    /// Left parenthesis
    LParen,
    /// Right parenthesis
    RParen,
    /// Groups goals between parentheses: (goal1, goal2, goal3)
    Group,
    /// Conjunction - goal and goal
    And,
    /// Disjunction - goal or goal
    Or,
    /// Complex term on the parse stack.
    Complex,
    /// List on the parse stack.
    LinkedList,
}


/// Used for tokenizing Suiron source.
#[derive(Debug, PartialEq)]
pub enum Token {
    /// * Valid `token_type`s are: Subgoal, Comma, Semicolon, LParen, RParen
    /// * `token_str` holds the item being parsed,
    /// such as `(`, `;`, or `a_subgoal(term1, term2)`.
    Leaf { token_type: TokenType, token_str: String },
    /// A parent node. Valid `token_type`s are: Group, And, Or.
    Branch { token_type: TokenType, children: Vec<Token> },
}

/// Mathematical model of a token: strings as character sequences.
pub enum TokenView {
    Leaf(TokenType, Seq<char>),
    Branch(TokenType, Seq<TokenView>),
}

/// The model of a token.
pub open spec fn token_view(t: Token) -> TokenView
    decreases t,
{
    match t {
        Token::Leaf { token_type, token_str } => TokenView::Leaf(token_type, token_str@),
        Token::Branch { token_type, children } => TokenView::Branch(
            token_type,
            Seq::new(
                children@.len(),
                |i: int|
                    if 0 <= i < children@.len() {
                        token_view(children@[i])
                    } else {
                        TokenView::Leaf(TokenType::Empty, Seq::empty())
                    },
            ),
        ),
    }
}

/// The model of a sequence of tokens.
pub open spec fn tokens_view(ts: Seq<Token>) -> Seq<TokenView> {
    ts.map_values(|t: Token| token_view(t))
}

/// The model of a branch token.
pub proof fn lemma_branch_view(tt: TokenType, children: Vec<Token>)
    ensures
        token_view(Token::Branch { token_type: tt, children }) == TokenView::Branch(
            tt,
            tokens_view(children@),
        ),
{
    assert(token_view(Token::Branch { token_type: tt, children }) matches TokenView::Branch(_, cs)
        && cs =~= tokens_view(children@));
}

/// A token and its model are of the same kind and type.
pub proof fn lemma_token_view_kind(t: Token)
    ensures
        (t is Leaf) <==> (t@ is Leaf),
        t matches Token::Leaf { token_type, .. } ==> t@ matches TokenView::Leaf(tt, _) && tt
            == token_type,
        t matches Token::Branch { token_type, .. } ==> t@ matches TokenView::Branch(tt, _) && tt
            == token_type,
{
}

impl View for Token {
    type V = TokenView;

    open spec fn view(&self) -> TokenView {
        token_view(*self)
    }
}

/// The token type that `make_leaf_token` gives to a trimmed symbol.
pub open spec fn leaf_type_of(s: Seq<char>) -> TokenType {
    if s == seq![','] {
        TokenType::Comma
    } else if s == seq![';'] {
        TokenType::Semicolon
    } else if s == seq!['('] {
        TokenType::LParen
    } else if s == seq![')'] {
        TokenType::RParen
    } else {
        TokenType::Subgoal
    }
}

/// Token types that a branch token may have.
pub open spec fn is_branch_type(tt: TokenType) -> bool {
    tt == TokenType::And || tt == TokenType::Or || tt == TokenType::Group
}

/// Makes a leaf token from the given string.
///
/// If the trimmed symbol is not a comma, semicolon, left parenthesis
/// or right parenthesis, it is taken to be a subgoal.
pub fn make_leaf_token(symbol: &str) -> (t: Token)
    ensures
        t@ == TokenView::Leaf(leaf_type_of(trim(symbol@)), trim(symbol@)),
{
    let chrs = str_to_chars(symbol);
    let s = trim_chars(&chrs);
    let tt = if s.len() == 1 && s[0] == ',' {
        assert(s@ =~= seq![',']);
        TokenType::Comma
    } else if s.len() == 1 && s[0] == ';' {
        assert(s@ =~= seq![';']);
        TokenType::Semicolon
    } else if s.len() == 1 && s[0] == '(' {
        assert(s@ =~= seq!['(']);
        TokenType::LParen
    } else if s.len() == 1 && s[0] == ')' {
        assert(s@ =~= seq![')']);
        TokenType::RParen
    } else {
        TokenType::Subgoal
    };
    Token::Leaf { token_type: tt, token_str: chars_to_string(&s) }
}

/// Makes a branch token from a vector of child tokens.
/// Valid branch token types are: Group, And, Or.
pub fn make_branch_token(token_type: TokenType, children: Vec<Token>) -> (t: Token)
    requires
        is_branch_type(token_type),
    ensures
        t == (Token::Branch { token_type, children }),
        t@ == TokenView::Branch(token_type, tokens_view(children@)),
{
    let t = Token::Branch { token_type, children };
    assert(token_view(t) matches TokenView::Branch(_, s) && s =~= tokens_view(children@));
    t
}

/// Copies a token, giving a token with the same model.
pub fn copy_token(t: &Token) -> (r: Token)
    ensures
        r@ == t@,
        r.is_leaf() == t.is_leaf(),
    decreases t,
{
    match t {
        Token::Leaf { token_type, token_str } => Token::Leaf {
            token_type: *token_type,
            token_str: token_str.clone(),
        },
        Token::Branch { token_type, children } => {
            let cs = copy_tokens(children);
            let r = Token::Branch { token_type: *token_type, children: cs };
            assert(r@ == t@) by {
                assert(token_view(r) matches TokenView::Branch(_, s) && s =~= tokens_view(cs@));
                assert(token_view(*t) matches TokenView::Branch(_, s) && s =~= tokens_view(
                    children@,
                ));
            }
            r
        },
    }
}

/// Copies a vector of tokens, element by element.
pub fn copy_tokens(ts: &Vec<Token>) -> (r: Vec<Token>)
    ensures
        tokens_view(r@) == tokens_view(ts@),
    decreases ts,
{
    let mut r: Vec<Token> = Vec::new();
    let mut i: usize = 0;
    while i < ts.len()
        invariant
            i <= ts@.len(),
            r@.len() == i,
            forall|k: int| 0 <= k < i ==> token_view(#[trigger] r@[k]) == token_view(ts@[k]),
        decreases ts@.len() - i,
    {
        assert(decreases_to!(ts => ts@[i as int]));
        let c = copy_token(&ts[i]);
        r.push(c);
        i = i + 1;
    }
    assert(tokens_view(r@) =~= tokens_view(ts@));
    r
}

impl Token {
    pub open spec fn is_leaf(&self) -> bool {
        self is Leaf
    }

    /// Gets the number of children of a branch (parent) token.
    pub fn number_of_children(&self) -> (n: usize)
        requires
            !self.is_leaf(),
        ensures
            self matches Token::Branch { children, .. } && n == children@.len(),
    {
        match self {
            Token::Branch { token_type: _, children } => children.len(),
            Token::Leaf { .. } => 0,
        }
    }

    /// Gets the token type.
    pub fn get_type(&self) -> (tt: TokenType)
        ensures
            tt == self.spec_type(),
    {
        match self {
            Token::Leaf { token_type, .. } => *token_type,
            Token::Branch { token_type, .. } => *token_type,
        }
    }

    pub open spec fn spec_type(&self) -> TokenType {
        match self {
            Token::Leaf { token_type, .. } => *token_type,
            Token::Branch { token_type, .. } => *token_type,
        }
    }

    /// Gets the token string. Valid only for leaf tokens.
    pub fn get_token_str(&self) -> (s: String)
        requires
            self.is_leaf(),
        ensures
            self matches Token::Leaf { token_str, .. } && s@ == token_str@,
    {
        match self {
            Token::Leaf { token_str, .. } => token_str.clone(),
            Token::Branch { .. } => String::new(),
        }
    }

    /// Gets (copies of) the child tokens of a branch token.
    pub fn get_children(&self) -> (cs: Vec<Token>)
        requires
            !self.is_leaf(),
        ensures
            self matches Token::Branch { children, .. } && tokens_view(cs@) == tokens_view(
                children@,
            ),
    {
        match self {
            Token::Branch { children, .. } => copy_tokens(children),
            Token::Leaf { .. } => Vec::new(),
        }
    }
}

/// The name of a token type, as its `Debug` form prints it.
pub open spec fn type_label(tt: TokenType) -> Seq<char> {
    match tt {
        TokenType::Empty => "Empty"@,
        TokenType::Subgoal => "Subgoal"@,
        TokenType::Comma => "Comma"@,
        TokenType::Semicolon => "Semicolon"@,
        TokenType::LParen => "LParen"@,
        TokenType::RParen => "RParen"@,
        TokenType::Group => "Group"@,
        TokenType::And => "And"@,
        TokenType::Or => "Or"@,
        TokenType::Complex => "Complex"@,
        TokenType::LinkedList => "LinkedList"@,
    }
}

/// The name of a token type in upper case.
pub open spec fn type_upper(tt: TokenType) -> Seq<char> {
    match tt {
        TokenType::Empty => "EMPTY"@,
        TokenType::Subgoal => "SUBGOAL"@,
        TokenType::Comma => "COMMA"@,
        TokenType::Semicolon => "SEMICOLON"@,
        TokenType::LParen => "LPAREN"@,
        TokenType::RParen => "RPAREN"@,
        TokenType::Group => "GROUP"@,
        TokenType::And => "AND"@,
        TokenType::Or => "OR"@,
        TokenType::Complex => "COMPLEX"@,
        TokenType::LinkedList => "LINKEDLIST"@,
    }
}

/// Display text of a leaf: the upper-case type, and for subgoals the
/// subgoal string in parentheses.
pub open spec fn leaf_text(tt: TokenType, s: Seq<char>) -> Seq<char> {
    if tt == TokenType::Subgoal {
        type_upper(tt) + seq!['('] + s + seq![')']
    } else {
        type_upper(tt)
    }
}

/// How a child is shown in its parent's display text.
pub open spec fn child_text(c: TokenView) -> Seq<char> {
    match c {
        TokenView::Leaf(tt, s) => leaf_text(tt, s),
        TokenView::Branch(tt, _) => type_upper(tt),
    }
}

/// Each child's text, preceded by a space.
pub open spec fn children_text(cs: Seq<TokenView>) -> Seq<char>
    decreases cs.len(),
{
    if cs.len() == 0 {
        Seq::empty()
    } else {
        children_text(cs.drop_last()) + seq![' '] + child_text(cs.last())
    }
}

/// Display text of a token: `SUBGOAL(a(1))`, `COMMA`, `AND > SUBGOAL(a) GROUP`.
pub open spec fn token_text(t: TokenView) -> Seq<char> {
    match t {
        TokenView::Leaf(tt, s) => leaf_text(tt, s),
        TokenView::Branch(tt, cs) => type_upper(tt) + " >"@ + children_text(cs),
    }
}

impl TokenType {
    /// The name of the token type, eg. `Subgoal`.
    pub fn name(&self) -> (s: &'static str)
        ensures
            s@ == type_label(*self),
    {
        match self {
            TokenType::Empty => "Empty",
            TokenType::Subgoal => "Subgoal",
            TokenType::Comma => "Comma",
            TokenType::Semicolon => "Semicolon",
            TokenType::LParen => "LParen",
            TokenType::RParen => "RParen",
            TokenType::Group => "Group",
            TokenType::And => "And",
            TokenType::Or => "Or",
            TokenType::Complex => "Complex",
            TokenType::LinkedList => "LinkedList",
        }
    }

    /// The name of the token type in upper case, eg. `SUBGOAL`.
    pub fn upper_name(&self) -> (s: &'static str)
        ensures
            s@ == type_upper(*self),
    {
        match self {
            TokenType::Empty => "EMPTY",
            TokenType::Subgoal => "SUBGOAL",
            TokenType::Comma => "COMMA",
            TokenType::Semicolon => "SEMICOLON",
            TokenType::LParen => "LPAREN",
            TokenType::RParen => "RPAREN",
            TokenType::Group => "GROUP",
            TokenType::And => "AND",
            TokenType::Or => "OR",
            TokenType::Complex => "COMPLEX",
            TokenType::LinkedList => "LINKEDLIST",
        }
    }

    /// Text of the token type (its name).
    pub fn to_display_string(&self) -> (s: String)
        ensures
            s@ == type_label(*self),
    {
        let v = str_to_chars(self.name());
        chars_to_string(&v)
    }
}

fn push_leaf_text(out: &mut Vec<char>, tt: TokenType, s: &String)
    ensures
        final(out)@ == old(out)@ + leaf_text(tt, s@),
{
    append_str(out, tt.upper_name());
    if tt == TokenType::Subgoal {
        out.push('(');
        append_str(out, s.as_str());
        out.push(')');
        assert(final(out)@ =~= old(out)@ + leaf_text(tt, s@));
    }
}

impl Token {
    /// Text for display, eg. `AND > SUBGOAL(goal1) SUBGOAL(goal2)`.
    pub fn to_display_string(&self) -> (s: String)
        ensures
            s@ == token_text(self@),
    {
        let mut out: Vec<char> = Vec::new();
        match self {
            Token::Leaf { token_type, token_str } => {
                push_leaf_text(&mut out, *token_type, token_str);
            },
            Token::Branch { token_type, children } => {
                append_str(&mut out, token_type.upper_name());
                append_str(&mut out, " >");
                let ghost cs = tokens_view(children@);
                assert(token_view(*self) matches TokenView::Branch(_, s) && s =~= cs);
                let ghost head = out@;
                let mut i: usize = 0;
                while i < children.len()
                    invariant
                        i <= children@.len(),
                        cs == tokens_view(children@),
                        out@ == head + children_text(cs.subrange(0, i as int)),
                    decreases children@.len() - i,
                {
                    out.push(' ');
                    match &children[i] {
                        Token::Leaf { token_type, token_str } => {
                            push_leaf_text(&mut out, *token_type, token_str);
                        },
                        Token::Branch { token_type, .. } => {
                            append_str(&mut out, token_type.upper_name());
                        },
                    }
                    proof {
                        let sub = cs.subrange(0, i + 1);
                        assert(sub.drop_last() =~= cs.subrange(0, i as int));
                        assert(sub.last() == token_view(children@[i as int]));
                    }
                    assert(out@ =~= head + children_text(cs.subrange(0, i + 1)));
                    i = i + 1;
                }
                assert(cs.subrange(0, children@.len() as int) =~= cs);
            },
        }
        chars_to_string(&out)
    }
}

} // verus!
