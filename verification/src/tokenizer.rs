//! Tokenizing of goal text, and the grouping of tokens into a token tree.
use vstd::prelude::*;
use crate::text::{str_to_chars, trim_chars, chars_to_string, trim, sub_chars, append_chars, append_str};
use crate::token::{
    Token, TokenType, TokenView, token_view, tokens_view, leaf_type_of, is_branch_type,
    make_leaf_token, make_branch_token, copy_token,
};
use crate::infix::{next_index_of, lemma_next_index_of, find_char};
use crate::parse_stack::{ParseStack, peek, pop};
use crate::goal::{Goal, GoalView, OpKind, Operator, goals_view};
use crate::parse_goals::{parse_subgoal, parse_subgoal_spec, goal_result_view};
use crate::token::type_label;

verus! {

/// Is the character a letter, number or hyphen (valid in a functor)?
pub open spec fn is_letter_number_hyphen(ch: char) -> bool {
    ||| ('a' <= ch && ch <= 'z')
    ||| ('A' <= ch && ch <= 'Z')
    ||| ('0' <= ch && ch <= '9')
    ||| ch == '_'
    ||| ch == '-'
    ||| ch == '\u{ad}'
    ||| ('\u{c0}' <= ch && ch <= '\u{2bf}')
    ||| ('\u{380}' <= ch && ch <= '\u{50f}')
}

/// Determines whether the given character is a letter, number or hyphen.
pub fn letter_number_hyphen(ch: char) -> (b: bool)
    ensures
        b == is_letter_number_hyphen(ch),
{
    if ch >= 'a' && ch <= 'z' {
        return true;
    }
    if ch >= 'A' && ch <= 'Z' {
        return true;
    }
    if ch >= '0' && ch <= '9' {
        return true;
    }
    if ch == '_' || ch == '-' || ch == '\u{ad}' {
        return true;
    }
    if ch >= '\u{c0}' && ch <= '\u{2bf}' {
        return true;
    }
    if ch >= '\u{380}' && ch <= '\u{50f}' {
        return true;
    }
    false
}

/// Quote, hash and 'at' are invalid between terms.
pub open spec fn is_invalid_between_terms(ch: char) -> bool {
    ch == '"' || ch == '#' || ch == '@'
}

/// Quote, hash and 'at' are invalid between terms (true means invalid).
pub fn invalid_between_terms(ch: char) -> (b: bool)
    ensures
        b == is_invalid_between_terms(ch),
{
    ch == '"' || ch == '#' || ch == '@'
}

/// The leaf token that `make_leaf_token` makes of `s[from..to]`.
pub open spec fn subgoal_leaf(s: Seq<char>, from: int, to: int) -> TokenView {
    let t = trim(s.subrange(from, to));
    TokenView::Leaf(leaf_type_of(t), t)
}

/// The tokens with the subgoal text `s[from..to]` added before a comma or
/// semicolon; blank text right after a group's closing parenthesis adds
/// nothing, since the group itself stands there.
pub open spec fn with_subgoal(tokens: Seq<TokenView>, s: Seq<char>, from: int, to: int) -> Seq<TokenView> {
    if tokens.len() > 0 && tokens.last() == TokenView::Leaf(TokenType::RParen, seq![')']) && trim(
        s.subrange(from, to),
    ).len() == 0 {
        tokens
    } else {
        tokens.push(subgoal_leaf(s, from, to))
    }
}

/// The top of a parse stack (`Empty` when the stack is empty).
pub open spec fn stack_top(stack: Seq<TokenType>) -> TokenType {
    if stack.len() == 0 {
        TokenType::Empty
    } else {
        stack.last()
    }
}

/// The tokenizer's scan of the (trimmed) text `s` from position `i`.
///
/// `start` is where the current subgoal text begins, `stack` records the open
/// complex terms, groups and lists, `tokens` the tokens made so far and
/// `prev` the previous character. Commas and semicolons at the top level
/// separate subgoals; a parenthesis after a letter, digit or hyphen opens a
/// complex term, otherwise it opens a group; text between quotes is skipped,
/// and so is a character after a backslash.
pub open spec fn tok_scan(
    s: Seq<char>,
    i: int,
    start: int,
    stack: Seq<TokenType>,
    tokens: Seq<TokenView>,
    prev: char,
) -> Result<Seq<TokenView>, Seq<char>>
    decreases s.len() - i,
{
    if i < 0 || i >= s.len() {
        if stack.len() > 0 {
            Err("tokenize() - Invalid term: "@ + s)
        } else if s.len() - start > 0 {
            Ok(tokens.push(subgoal_leaf(s, start, s.len() as int)))
        } else {
            Ok(tokens)
        }
    } else {
        let top = stack_top(stack);
        let ch = s[i];
        if ch == '"' {
            let j = next_index_of(s, i + 1, '"');
            proof {
                lemma_next_index_of(s, i + 1, '"');
            }
            if j >= 0 {
                tok_scan(s, j + 1, start, stack, tokens, '"')
            } else {
                tok_scan(
                    s,
                    i + 1,
                    start,
                    stack,
                    tokens,
                    if i + 1 < s.len() {
                        s.last()
                    } else {
                        '"'
                    },
                )
            }
        } else if ch == '\\' && i + 1 < s.len() {
            tok_scan(s, i + 2, start, stack, tokens, s[i + 1])
        } else if ch == '(' {
            if is_letter_number_hyphen(prev) {
                tok_scan(s, i + 1, start, stack.push(TokenType::Complex), tokens, ch)
            } else {
                tok_scan(
                    s,
                    i + 1,
                    i + 1,
                    stack.push(TokenType::Group),
                    tokens.push(TokenView::Leaf(TokenType::LParen, seq!['('])),
                    ch,
                )
            }
        } else if ch == ')' {
            if top == TokenType::Empty {
                Err("tokenize() - Unmatched parenthesis: "@ + s)
            } else if stack.last() == TokenType::Group {
                tok_scan(
                    s,
                    i + 1,
                    i + 1,
                    stack.drop_last(),
                    tokens.push(subgoal_leaf(s, start, i)).push(
                        TokenView::Leaf(TokenType::RParen, seq![')']),
                    ),
                    ch,
                )
            } else if stack.last() != TokenType::Complex {
                Err("tokenize() - Unmatched parenthesis: "@ + s)
            } else {
                tok_scan(s, i + 1, start, stack.drop_last(), tokens, ch)
            }
        } else if ch == '[' {
            tok_scan(s, i + 1, start, stack.push(TokenType::LinkedList), tokens, ch)
        } else if ch == ']' {
            if top == TokenType::Empty {
                Err("tokenize() - Unmatched bracket: "@ + s)
            } else if stack.last() != TokenType::LinkedList {
                Err("Tokenize() - Unmatched bracket: "@ + s)
            } else {
                tok_scan(s, i + 1, start, stack.drop_last(), tokens, ch)
            }
        } else if top != TokenType::Complex && top != TokenType::LinkedList {
            if is_invalid_between_terms(ch) {
                Err("tokenize() - Invalid character: "@ + s)
            } else if ch == ',' {
                tok_scan(
                    s,
                    i + 1,
                    i + 1,
                    stack,
                    with_subgoal(tokens, s, start, i).push(
                        TokenView::Leaf(TokenType::Comma, seq![',']),
                    ),
                    ch,
                )
            } else if ch == ';' {
                tok_scan(
                    s,
                    i + 1,
                    i + 1,
                    stack,
                    with_subgoal(tokens, s, start, i).push(
                        TokenView::Leaf(TokenType::Semicolon, seq![';']),
                    ),
                    ch,
                )
            } else {
                tok_scan(s, i + 1, start, stack, tokens, ch)
            }
        } else {
            tok_scan(s, i + 1, start, stack, tokens, ch)
        }
    }
}

/// What `tokenize` gives for the text `to_parse`.
pub open spec fn tokenize_spec(to_parse: Seq<char>) -> Result<Seq<TokenView>, Seq<char>> {
    let s = trim(to_parse);
    if s.len() == 0 {
        Err("tokenize() - String is empty."@)
    } else {
        tok_scan(s, 0, 0, Seq::empty(), Seq::empty(), '#')
    }
}

/// The model of a tokenizer result.
pub open spec fn tokens_result_view(r: Result<Vec<Token>, String>) -> Result<
    Seq<TokenView>,
    Seq<char>,
> {
    match r {
        Ok(ts) => Ok(tokens_view(ts@)),
        Err(e) => Err(e@),
    }
}

/// An error message: a fixed text followed by the offending text.
pub fn message(prefix: &str, bad: &[char]) -> (m: String)
    ensures
        m@ == prefix@ + bad@,
{
    let mut v: Vec<char> = Vec::new();
    append_str(&mut v, prefix);
    append_chars(&mut v, bad);
    chars_to_string(&v)
}

fn push_subgoal(tokens: &mut Vec<Token>, chrs: &Vec<char>, from: usize, to: usize)
    requires
        from <= to <= chrs@.len(),
    ensures
        tokens_view(final(tokens)@) == tokens_view(old(tokens)@).push(
            subgoal_leaf(chrs@, from as int, to as int),
        ),
{
    let sub = sub_chars(chrs, from, to);
    let st = chars_to_string(&sub);
    let t = make_leaf_token(st.as_str());
    tokens.push(t);
    assert(tokens_view(final(tokens)@) =~= tokens_view(old(tokens)@).push(
        subgoal_leaf(chrs@, from as int, to as int),
    ));
}

/// Adds the subgoal text before a comma or semicolon (see `with_subgoal`).
fn push_subgoal_before(tokens: &mut Vec<Token>, chrs: &Vec<char>, from: usize, to: usize)
    requires
        from <= to <= chrs@.len(),
    ensures
        tokens_view(final(tokens)@) == with_subgoal(tokens_view(old(tokens)@), chrs@, from as int, to as int),
{
    let n = tokens.len();
    let after_group = if n > 0 {
        match &tokens[n - 1] {
            Token::Leaf { token_type: TokenType::RParen, token_str } => {
                let tc = str_to_chars(token_str.as_str());
                tc.len() == 1 && tc[0] == ')'
            },
            _ => false,
        }
    } else {
        false
    };
    proof {
        if n > 0 {
            assert(tokens_view(tokens@).last() == tokens@[n - 1]@);
        }
    }
    if after_group {
        let sub = sub_chars(chrs, from, to);
        let t = crate::text::trim_chars(&sub);
        if t.len() == 0 {
            proof {
                let tv = tokens_view(tokens@);
                assert(tv.last() == TokenView::Leaf(TokenType::RParen, seq![')'])) by {
                    assert(tokens@[n - 1]@ matches TokenView::Leaf(TokenType::RParen, x) && x =~= seq![')']);
                }
            }
            return;
        }
    }
    proof {
        let tv = tokens_view(tokens@);
        if n > 0 && tv.last() == TokenView::Leaf(TokenType::RParen, seq![')']) {
            assert(tokens@[n - 1]@ == tv.last());
        }
    }
    push_subgoal(tokens, chrs, from, to);
}

fn push_symbol(tokens: &mut Vec<Token>, sym: char, tt: TokenType)
    requires
        (sym == ',' && tt == TokenType::Comma) || (sym == ';' && tt == TokenType::Semicolon) || (
        sym == '(' && tt == TokenType::LParen) || (sym == ')' && tt == TokenType::RParen),
    ensures
        tokens_view(final(tokens)@) == tokens_view(old(tokens)@).push(
            TokenView::Leaf(tt, seq![sym]),
        ),
{
    let mut v: Vec<char> = Vec::new();
    v.push(sym);
    let st = chars_to_string(&v);
    let t = Token::Leaf { token_type: tt, token_str: st };
    tokens.push(t);
    assert(tokens_view(final(tokens)@) =~= tokens_view(old(tokens)@).push(
        TokenView::Leaf(tt, seq![sym]),
    ));
}

/// Divides the given string into a series of tokens.
///
/// Parentheses can be used to define a complex term, such as
/// `likes(Charles, Gina)`, or to group terms: `(father($X, $Y); mother($X, $Y))`.
pub fn tokenize(to_parse: &str) -> (r: Result<Vec<Token>, String>)
    ensures
        tokens_result_view(r) == tokenize_spec(to_parse@),
{
    let mut tokens: Vec<Token> = Vec::new();
    let mut parse_stk: ParseStack = Vec::new();
    let chrs0 = str_to_chars(to_parse);
    let chrs = trim_chars(&chrs0);
    let length = chrs.len();
    if length == 0 {
        let e = str_to_chars("tokenize() - String is empty.");
        return Err(chars_to_string(&e));
    }
    let mut start_index: usize = 0;
    let mut previous = '#';
    let mut i: usize = 0;
    assert(tokens_view(tokens@) =~= Seq::<TokenView>::empty());
    assert(parse_stk@ =~= Seq::<TokenType>::empty());
    while i < length
        invariant
            length == chrs@.len(),
            chrs@ == trim(to_parse@),
            length > 0,
            start_index <= i <= length,
            tokenize_spec(to_parse@) == tok_scan(
                chrs@,
                i as int,
                start_index as int,
                parse_stk@,
                tokens_view(tokens@),
                previous,
            ),
        decreases length - i,
    {
        let top = peek(&mut parse_stk);
        let ch = chrs[i];
        if ch == '"' {
            proof {
                lemma_next_index_of(chrs@, i + 1, '"');
            }
            match find_char(&chrs, i + 1, '"') {
                Some(j) => {
                    i = j + 1;
                    previous = '"';
                },
                None => {
                    if i + 1 < length {
                        previous = chrs[length - 1];
                    } else {
                        previous = '"';
                    }
                    i = i + 1;
                },
            }
        } else if ch == '\\' && i + 1 < length {
            previous = chrs[i + 1];
            i = i + 2;
        } else if ch == '(' {
            if letter_number_hyphen(previous) {
                parse_stk.push(TokenType::Complex);
            } else {
                parse_stk.push(TokenType::Group);
                push_symbol(&mut tokens, '(', TokenType::LParen);
                start_index = i + 1;
            }
            previous = ch;
            i = i + 1;
        } else if ch == ')' {
            if top == TokenType::Empty {
                return Err(message("tokenize() - Unmatched parenthesis: ", &chrs));
            }
            let popped = pop(&mut parse_stk);
            if popped == TokenType::Group {
                push_subgoal(&mut tokens, &chrs, start_index, i);
                push_symbol(&mut tokens, ')', TokenType::RParen);
                start_index = i + 1;
            } else if popped != TokenType::Complex {
                return Err(message("tokenize() - Unmatched parenthesis: ", &chrs));
            }
            previous = ch;
            i = i + 1;
        } else if ch == '[' {
            parse_stk.push(TokenType::LinkedList);
            previous = ch;
            i = i + 1;
        } else if ch == ']' {
            if top == TokenType::Empty {
                return Err(message("tokenize() - Unmatched bracket: ", &chrs));
            }
            let popped = pop(&mut parse_stk);
            if popped != TokenType::LinkedList {
                return Err(message("Tokenize() - Unmatched bracket: ", &chrs));
            }
            previous = ch;
            i = i + 1;
        } else {
            if top != TokenType::Complex && top != TokenType::LinkedList {
                if invalid_between_terms(ch) {
                    return Err(message("tokenize() - Invalid character: ", &chrs));
                }
                if ch == ',' {
                    push_subgoal_before(&mut tokens, &chrs, start_index, i);
                    push_symbol(&mut tokens, ',', TokenType::Comma);
                    start_index = i + 1;
                } else if ch == ';' {
                    push_subgoal_before(&mut tokens, &chrs, start_index, i);
                    push_symbol(&mut tokens, ';', TokenType::Semicolon);
                    start_index = i + 1;
                }
            }
            previous = ch;
            i = i + 1;
        }
    }
    if parse_stk.len() > 0 {
        return Err(message("tokenize() - Invalid term: ", &chrs));
    }
    if length - start_index > 0 {
        push_subgoal(&mut tokens, &chrs, start_index, length);
    }
    Ok(tokens)
}

/// The type of a token model.
pub open spec fn view_type(t: TokenView) -> TokenType {
    match t {
        TokenView::Leaf(tt, _) => tt,
        TokenView::Branch(tt, _) => tt,
    }
}

/// The number of children of a branch (0 for a leaf).
pub open spec fn num_children(t: TokenView) -> nat {
    match t {
        TokenView::Leaf(_, _) => 0,
        TokenView::Branch(_, cs) => cs.len(),
    }
}

/// Token types that a leaf token may have.
pub open spec fn is_leaf_type(tt: TokenType) -> bool {
    tt == TokenType::Subgoal || tt == TokenType::Comma || tt == TokenType::Semicolon || tt
        == TokenType::LParen || tt == TokenType::RParen
}

/// A well-formed token tree: leaves have leaf types and branches have
/// branch types, at every level.
pub open spec fn wf_token(t: TokenView) -> bool
    decreases t,
{
    match t {
        TokenView::Leaf(tt, _) => is_leaf_type(tt),
        TokenView::Branch(tt, cs) => is_branch_type(tt) && forall|i: int|
            0 <= i < cs.len() ==> wf_token(#[trigger] cs[i]),
    }
}

pub open spec fn group_measure(ts: Seq<TokenView>, index: int) -> int {
    if 0 <= index < ts.len() {
        ts.len() - index
    } else {
        0
    }
}

/// Grouping of tokens from `index` on: tokens between a left parenthesis and
/// its right parenthesis become a Group branch; a right parenthesis ends the
/// current group. After a nested group, the scan skips the left parenthesis,
/// as many tokens as the group has children, and two more tokens.
pub open spec fn group_loop(ts: Seq<TokenView>, index: int, acc: Seq<TokenView>) -> TokenView
    decreases group_measure(ts, index),
{
    if index < 0 || index >= ts.len() {
        TokenView::Branch(TokenType::Group, acc)
    } else {
        let t = ts[index];
        if view_type(t) == TokenType::LParen {
            let g = group_loop(ts, index + 1, Seq::empty());
            group_loop(ts, index + 1 + num_children(g) + 1 + 1, acc.push(g))
        } else if view_type(t) == TokenType::RParen {
            TokenView::Branch(TokenType::Group, acc)
        } else {
            group_loop(ts, index + 1, acc.push(t))
        }
    }
}

proof fn lemma_group_loop(ts: Seq<TokenView>, index: int, acc: Seq<TokenView>)
    requires
        0 <= index <= ts.len(),
    ensures
        group_loop(ts, index, acc) is Branch,
        view_type(group_loop(ts, index, acc)) == TokenType::Group,
        num_children(group_loop(ts, index, acc)) <= acc.len() + (ts.len() - index),
        (forall|k: int| 0 <= k < acc.len() ==> wf_token(#[trigger] acc[k])) && (forall|k: int|
            0 <= k < ts.len() ==> wf_token(#[trigger] ts[k])) ==> wf_token(
            group_loop(ts, index, acc),
        ),
    decreases group_measure(ts, index),
{
    if index < ts.len() {
        let t = ts[index];
        if view_type(t) == TokenType::LParen {
            lemma_group_loop(ts, index + 1, Seq::empty());
            let g = group_loop(ts, index + 1, Seq::empty());
            let next = index + 1 + num_children(g) + 1 + 1;
            let acc2 = acc.push(g);
            if next <= ts.len() {
                lemma_group_loop(ts, next, acc2);
            }
            assert((forall|k: int| 0 <= k < acc.len() ==> wf_token(#[trigger] acc[k])) && (
            forall|k: int| 0 <= k < ts.len() ==> wf_token(#[trigger] ts[k])) ==> (forall|k: int|
                0 <= k < acc2.len() ==> wf_token(#[trigger] acc2[k])));
        } else if view_type(t) == TokenType::RParen {
        } else {
            let acc2 = acc.push(t);
            lemma_group_loop(ts, index + 1, acc2);
            assert((forall|k: int| 0 <= k < acc.len() ==> wf_token(#[trigger] acc[k])) && (
            forall|k: int| 0 <= k < ts.len() ==> wf_token(#[trigger] ts[k])) ==> (forall|k: int|
                0 <= k < acc2.len() ==> wf_token(#[trigger] acc2[k])));
        }
    }
}

/// Collects tokens within parentheses into groups, converting a flat
/// vector of tokens into a tree of tokens whose root is a Group.
pub fn group_tokens(tokens: &Vec<Token>, start: usize) -> (r: Token)
    ensures
        r@ == group_loop(tokens_view(tokens@), start as int, Seq::empty()),
        r@ is Branch,
        (forall|k: int| 0 <= k < tokens@.len() ==> wf_token(#[trigger] tokens@[k]@)) ==> wf_token(
            r@,
        ),
    decreases tokens@.len() - start,
{
    let ghost ts = tokens_view(tokens@);
    let size = tokens.len();
    let mut new_tokens: Vec<Token> = Vec::new();
    let mut index = start;
    let ghost index0 = start;
    assert(tokens_view(new_tokens@) =~= Seq::<TokenView>::empty());
    while index < size
        invariant
            size == tokens@.len(),
            ts == tokens_view(tokens@),
            group_loop(ts, index0 as int, Seq::empty()) == group_loop(
                ts,
                index as int,
                tokens_view(new_tokens@),
            ),
            index0 <= index,
            index0 == start,
        decreases size - index,
    {
        let the_type = tokens[index].get_type();
        assert(view_type(ts[index as int]) == the_type);
        if the_type == TokenType::LParen {
            let t = group_tokens(tokens, index + 1);
            proof {
                lemma_group_loop(ts, index + 1, Seq::empty());
            }
            let n = t.number_of_children();
            let ghost acc = tokens_view(new_tokens@);
            new_tokens.push(t);
            assert(tokens_view(new_tokens@) =~= acc.push(t@));
            let ghost next = index + 1 + n + 1 + 1;
            let rest = size - index - 1;
            if rest < 2 || n >= rest - 2 {
                index = size;
                assert(group_loop(ts, next, tokens_view(new_tokens@)) == TokenView::Branch(
                    TokenType::Group,
                    tokens_view(new_tokens@),
                ));
            } else {
                index = index + n + 3;
            }
        } else if the_type == TokenType::RParen {
            let r = make_branch_token(TokenType::Group, new_tokens);
            proof {
                lemma_group_loop(ts, index0 as int, Seq::empty());
                if forall|k: int| 0 <= k < tokens@.len() ==> wf_token(#[trigger] tokens@[k]@) {
                    assert forall|k: int| 0 <= k < ts.len() implies wf_token(#[trigger] ts[k]) by {
                        assert(ts[k] == tokens@[k]@);
                    }
                }
            }
            return r;
        } else {
            let c = copy_token(&tokens[index]);
            let ghost acc = tokens_view(new_tokens@);
            new_tokens.push(c);
            assert(tokens_view(new_tokens@) =~= acc.push(ts[index as int]));
            index = index + 1;
        }
    }
    let r = make_branch_token(TokenType::Group, new_tokens);
    proof {
        if index0 <= size {
            lemma_group_loop(ts, index0 as int, Seq::empty());
        }
        if forall|k: int| 0 <= k < tokens@.len() ==> wf_token(#[trigger] tokens@[k]@) {
            assert forall|k: int| 0 <= k < ts.len() implies wf_token(#[trigger] ts[k]) by {
                assert(ts[k] == tokens@[k]@);
            }
        }
    }
    r
}

/// What a semicolon closes: the single subgoal, or an And of the list.
pub open spec fn and_close(al: Seq<TokenView>) -> TokenView {
    if al.len() == 1 {
        al[0]
    } else {
        TokenView::Branch(TokenType::And, al)
    }
}

/// The children of a branch after its comma-separated runs become And tokens.
pub open spec fn and_finish(nc: Seq<TokenView>, al: Seq<TokenView>) -> Seq<TokenView> {
    if al.len() == 1 {
        nc.push(al[0])
    } else if al.len() > 1 {
        nc.push(TokenView::Branch(TokenType::And, al))
    } else {
        nc
    }
}

/// `group_and_tokens` on a token model: subgoals separated by commas are
/// gathered into And tokens; semicolons are kept; nested groups are grouped
/// by And and then by Or.
pub open spec fn and_spec(t: TokenView) -> TokenView
    decreases t, 0int,
{
    match t {
        TokenView::Leaf(_, _) => t,
        TokenView::Branch(tt, cs) => {
            let (nc, al) = and_fold(cs, 0, Seq::empty(), Seq::empty());
            TokenView::Branch(tt, and_finish(nc, al))
        },
    }
}

/// The pass of `and_spec` over the children `cs` from `i` on, with the new
/// children `nc` and the current comma-separated list `al`.
pub open spec fn and_fold(cs: Seq<TokenView>, i: int, nc: Seq<TokenView>, al: Seq<TokenView>) -> (
    Seq<TokenView>,
    Seq<TokenView>,
)
    decreases cs, cs.len() - i,
{
    if i < 0 || i >= cs.len() {
        (nc, al)
    } else {
        let c = cs[i];
        let ct = view_type(c);
        if ct == TokenType::Subgoal {
            and_fold(cs, i + 1, nc, al.push(c))
        } else if ct == TokenType::Semicolon {
            and_fold(cs, i + 1, nc.push(and_close(al)).push(c), Seq::empty())
        } else if ct == TokenType::Group {
            and_fold(cs, i + 1, nc, al.push(or_spec(and_spec(c))))
        } else {
            and_fold(cs, i + 1, nc, al)
        }
    }
}

/// The subgoals, Ands and Groups among `cs[i..]`, appended to `ol`.
pub open spec fn or_operands(cs: Seq<TokenView>, i: int, ol: Seq<TokenView>) -> Seq<TokenView>
    decreases cs.len() - i,
{
    if i < 0 || i >= cs.len() {
        ol
    } else {
        let ct = view_type(cs[i]);
        if ct == TokenType::Subgoal || ct == TokenType::And || ct == TokenType::Group {
            or_operands(cs, i + 1, ol.push(cs[i]))
        } else {
            or_operands(cs, i + 1, ol)
        }
    }
}

/// `group_or_tokens` on a token model: the children separated by semicolons
/// become the operands of one Or token (a single operand stands alone).
pub open spec fn or_spec(t: TokenView) -> TokenView {
    match t {
        TokenView::Leaf(_, _) => t,
        TokenView::Branch(tt, cs) => {
            let ol = or_operands(cs, 0, Seq::empty());
            TokenView::Branch(
                tt,
                if ol.len() == 1 {
                    seq![ol[0]]
                } else if ol.len() > 1 {
                    seq![TokenView::Branch(TokenType::Or, ol)]
                } else {
                    Seq::empty()
                },
            )
        },
    }
}

/// Every child of type Group, in this token and in such children in
/// turn, is a branch: what the grouping by And descends into.
pub open spec fn groups_are_branches(t: TokenView) -> bool
    decreases t,
{
    match t {
        TokenView::Leaf(_, _) => true,
        TokenView::Branch(_, cs) => forall|i: int|
            0 <= i < cs.len() && view_type(#[trigger] cs[i]) == TokenType::Group ==> cs[i] is Branch
                && groups_are_branches(cs[i]),
    }
}

/// In a well-formed token tree, every Group token is a branch.
pub proof fn lemma_wf_groups_are_branches(t: TokenView)
    requires
        wf_token(t),
    ensures
        groups_are_branches(t),
    decreases t,
{
    match t {
        TokenView::Leaf(_, _) => {},
        TokenView::Branch(_, cs) => {
            assert forall|i: int|
                0 <= i < cs.len() && view_type(#[trigger] cs[i]) == TokenType::Group implies cs[i] is Branch
                && groups_are_branches(cs[i]) by {
                assert(wf_token(cs[i]));
                lemma_wf_groups_are_branches(cs[i]);
            }
        },
    }
}

fn group_and_ref(token: &Token) -> (r: Token)
    requires
        token@ is Branch,
        is_branch_type(view_type(token@)),
        groups_are_branches(token@),
    ensures
        r@ == and_spec(token@),
        wf_token(token@) ==> wf_token(r@),
    decreases token, 1int,
{
    match token {
        Token::Leaf { .. } => {
            assert(token_view(*token) is Leaf);
            assert(false);
            copy_token(token)
        },
        Token::Branch { token_type, children } => {
            let ghost cs = tokens_view(children@);
            assert(token_view(*token) matches TokenView::Branch(_, s) && s =~= cs);
            assert forall|k: int|
                0 <= k < children@.len() && view_type(#[trigger] children@[k]@) == TokenType::Group implies children@[k]@ is Branch
                && groups_are_branches(children@[k]@) by {
                assert(cs[k] == children@[k]@);
            }
            proof {
                if wf_token(token@) {
                    assert forall|k: int| 0 <= k < children@.len() implies wf_token(
                        #[trigger] children@[k]@,
                    ) by {
                        assert(cs[k] == children@[k]@);
                    }
                }
            }
            let new_children = and_children(children);
            let r = make_branch_token(*token_type, new_children);
            proof {
                if wf_token(token@) {
                    assert forall|k: int| 0 <= k < tokens_view(new_children@).len() implies wf_token(
                        #[trigger] tokens_view(new_children@)[k],
                    ) by {
                        assert(tokens_view(new_children@)[k] == new_children@[k]@);
                    }
                }
            }
            r
        },
    }
}

fn and_children(children: &Vec<Token>) -> (r: Vec<Token>)
    requires
        forall|k: int|
            0 <= k < children@.len() && view_type(#[trigger] children@[k]@) == TokenType::Group ==> children@[k]@ is Branch
                && groups_are_branches(children@[k]@),
    ensures
        ({
            let (nc, al) = and_fold(tokens_view(children@), 0, Seq::empty(), Seq::empty());
            tokens_view(r@) == and_finish(nc, al)
        }),
        (forall|k: int| 0 <= k < children@.len() ==> wf_token(#[trigger] children@[k]@)) ==> (forall|
            k: int,
        | 0 <= k < r@.len() ==> wf_token(#[trigger] r@[k]@)),
    decreases children, 0int,
{
    let ghost cs = tokens_view(children@);
    let ghost all_wf = forall|k: int| 0 <= k < cs.len() ==> wf_token(#[trigger] cs[k]);
    let mut new_children: Vec<Token> = Vec::new();
    let mut and_list: Vec<Token> = Vec::new();
    assert(tokens_view(new_children@) =~= Seq::<TokenView>::empty());
    assert(tokens_view(and_list@) =~= Seq::<TokenView>::empty());
    assert((forall|k: int| 0 <= k < children@.len() ==> wf_token(#[trigger] children@[k]@)) ==> all_wf) by {
        if forall|k: int| 0 <= k < children@.len() ==> wf_token(#[trigger] children@[k]@) {
            assert forall|k: int| 0 <= k < cs.len() implies wf_token(#[trigger] cs[k]) by {
                assert(cs[k] == children@[k]@);
            }
        }
    }
    let mut i: usize = 0;
    while i < children.len()
        invariant
            i <= children@.len(),
            cs == tokens_view(children@),
            all_wf == forall|k: int| 0 <= k < cs.len() ==> wf_token(#[trigger] cs[k]),
            forall|k: int|
                0 <= k < children@.len() && view_type(#[trigger] children@[k]@) == TokenType::Group ==> children@[k]@ is Branch
                    && groups_are_branches(children@[k]@),
            and_fold(cs, 0, Seq::empty(), Seq::empty()) == and_fold(
                cs,
                i as int,
                tokens_view(new_children@),
                tokens_view(and_list@),
            ),
            all_wf ==> forall|k: int| 0 <= k < new_children@.len() ==> wf_token(#[trigger] new_children@[k]@),
            all_wf ==> forall|k: int| 0 <= k < and_list@.len() ==> wf_token(#[trigger] and_list@[k]@),
        decreases children@.len() - i,
    {
        let child = &children[i];
        assert(cs[i as int] == child@);
        let ct = child.get_type();
        let ghost nc0 = tokens_view(new_children@);
        let ghost al0 = tokens_view(and_list@);
        if ct == TokenType::Subgoal {
            and_list.push(copy_token(child));
            assert(tokens_view(and_list@) =~= al0.push(child@));
        } else if ct == TokenType::Semicolon {
            if and_list.len() == 1 {
                let first = copy_token(&and_list[0]);
                new_children.push(first);
            } else {
                let al = and_list;
                and_list = Vec::new();
                let b = make_branch_token(TokenType::And, al);
                proof {
                    if all_wf {
                        assert forall|k: int| 0 <= k < tokens_view(al@).len() implies wf_token(
                            #[trigger] tokens_view(al@)[k],
                        ) by {
                            assert(tokens_view(al@)[k] == al@[k]@);
                        }
                    }
                }
                new_children.push(b);
            }
            assert(tokens_view(new_children@) =~= nc0.push(and_close(al0)));
            let ghost nc1 = tokens_view(new_children@);
            new_children.push(copy_token(child));
            assert(tokens_view(new_children@) =~= nc1.push(child@));
            and_list = Vec::new();
            assert(tokens_view(and_list@) =~= Seq::<TokenView>::empty());
        } else if ct == TokenType::Group {
            assert(decreases_to!(children => children@[i as int]));
            let t = group_and_ref(child);
            let t2 = group_or_ref(&t);
            and_list.push(t2);
            assert(tokens_view(and_list@) =~= al0.push(or_spec(and_spec(child@))));
        }
        i = i + 1;
    }
    let ghost nc0 = tokens_view(new_children@);
    let ghost al0 = tokens_view(and_list@);
    if and_list.len() == 1 {
        let first = copy_token(&and_list[0]);
        new_children.push(first);
    } else if and_list.len() > 1 {
        let al = and_list;
        let b = make_branch_token(TokenType::And, al);
        proof {
            if all_wf {
                assert forall|k: int| 0 <= k < tokens_view(al@).len() implies wf_token(
                    #[trigger] tokens_view(al@)[k],
                ) by {
                    assert(tokens_view(al@)[k] == al@[k]@);
                }
            }
        }
        new_children.push(b);
    }
    assert(tokens_view(new_children@) =~= and_finish(nc0, al0));
    new_children
}

fn group_or_ref(token: &Token) -> (r: Token)
    requires
        token@ is Branch,
        is_branch_type(view_type(token@)),
    ensures
        r@ == or_spec(token@),
        wf_token(token@) ==> wf_token(r@),
{
    match token {
        Token::Leaf { .. } => {
            assert(token_view(*token) is Leaf);
            assert(false);
            copy_token(token)
        },
        Token::Branch { token_type, children } => {
            let ghost cs = tokens_view(children@);
            assert(token_view(*token) matches TokenView::Branch(_, s) && s =~= cs);
            let mut or_list: Vec<Token> = Vec::new();
            assert(tokens_view(or_list@) =~= Seq::<TokenView>::empty());
            let mut i: usize = 0;
            while i < children.len()
                invariant
                    i <= children@.len(),
                    cs == tokens_view(children@),
                    or_operands(cs, 0, Seq::empty()) == or_operands(
                        cs,
                        i as int,
                        tokens_view(or_list@),
                    ),
                    (forall|k: int| 0 <= k < cs.len() ==> wf_token(#[trigger] cs[k])) ==> (forall|
                        k: int,
                    |
                        0 <= k < or_list@.len() ==> wf_token(#[trigger] or_list@[k]@)),
                decreases children@.len() - i,
            {
                let child = &children[i];
                assert(cs[i as int] == child@);
                let ct = child.get_type();
                if ct == TokenType::Subgoal || ct == TokenType::And || ct == TokenType::Group {
                    let ghost ol0 = tokens_view(or_list@);
                    or_list.push(copy_token(child));
                    assert(tokens_view(or_list@) =~= ol0.push(child@));
                }
                i = i + 1;
            }
            let mut new_children: Vec<Token> = Vec::new();
            let ghost ol = tokens_view(or_list@);
            if or_list.len() == 1 {
                new_children.push(copy_token(&or_list[0]));
                assert(tokens_view(new_children@) =~= seq![ol[0]]);
                assert(ol[0] == or_list@[0]@);
            } else if or_list.len() > 1 {
                let b = make_branch_token(TokenType::Or, or_list);
                new_children.push(b);
                assert(tokens_view(new_children@) =~= seq![TokenView::Branch(TokenType::Or, ol)]);
                proof {
                    if wf_token(token@) {
                        assert forall|k: int| 0 <= k < ol.len() implies wf_token(#[trigger] ol[k]) by {
                            assert(ol[k] == or_list@[k]@);
                        }
                        assert(wf_token(TokenView::Branch(TokenType::Or, ol)));
                    }
                }
            } else {
                assert(tokens_view(new_children@) =~= Seq::<TokenView>::empty());
            }
            proof {
                if wf_token(token@) {
                    assert forall|k: int| 0 <= k < cs.len() implies wf_token(#[trigger] cs[k]) by {}
                }
            }
            make_branch_token(*token_type, new_children)
        },
    }
}

/// Groups child tokens which are separated by commas into And tokens.
/// The given token must be a branch token, and so must every Group token
/// that the grouping descends into.
pub fn group_and_tokens(token: Token) -> (r: Token)
    requires
        token@ is Branch,
        is_branch_type(view_type(token@)),
        groups_are_branches(token@),
    ensures
        r@ == and_spec(token@),
        wf_token(token@) ==> wf_token(r@),
{
    group_and_ref(&token)
}

/// Groups child tokens which are separated by semicolons into an Or token.
/// The given token must be a branch token.
pub fn group_or_tokens(token: Token) -> (r: Token)
    requires
        token@ is Branch,
        is_branch_type(view_type(token@)),
    ensures
        r@ == or_spec(token@),
        wf_token(token@) ==> wf_token(r@),
{
    group_or_ref(&token)
}


/// The error message of `token_tree_to_goal`.
pub open spec fn tttg_error(err: Seq<char>, bad: Seq<char>) -> Seq<char> {
    "token_tree_to_goal() - "@ + err + seq![' '] + bad
}

/// What `token_tree_to_goal` gives for a token tree: a subgoal leaf is
/// parsed; And and Or branches give operator goals over their subgoals
/// and groups; a group gives the goal of its single child.
pub open spec fn ttg_spec(t: TokenView) -> Result<GoalView, Seq<char>>
    decreases t, 1int,
{
    match t {
        TokenView::Leaf(tt, s) => if tt == TokenType::Subgoal {
            parse_subgoal_spec(s)
        } else {
            Err(tttg_error("Invalid. Leaf token must be Subgoal."@, Seq::empty()))
        },
        TokenView::Branch(tt, cs) => if tt == TokenType::And || tt == TokenType::Or {
            match ttg_operands(cs, 0, Seq::empty()) {
                Ok(gs) => Ok(
                    GoalView::Op(
                        if tt == TokenType::And {
                            OpKind::And
                        } else {
                            OpKind::Or
                        },
                        gs,
                    ),
                ),
                Err(e) => Err(e),
            }
        } else if tt == TokenType::Group {
            if cs.len() != 1 {
                Err(tttg_error("Group should have 1 child."@, Seq::empty()))
            } else {
                ttg_spec(cs[0])
            }
        } else {
            Err(tttg_error("Invalid token type:"@, type_label(tt)))
        },
    }
}

/// The goals of the children `cs[i..]` of an And or Or token, appended to
/// `acc`: subgoal leaves are parsed, groups converted, others skipped.
pub open spec fn ttg_operands(cs: Seq<TokenView>, i: int, acc: Seq<GoalView>) -> Result<
    Seq<GoalView>,
    Seq<char>,
>
    decreases cs, cs.len() - i,
{
    if i < 0 || i >= cs.len() {
        Ok(acc)
    } else {
        match cs[i] {
            TokenView::Leaf(TokenType::Subgoal, s) => match parse_subgoal_spec(s) {
                Ok(g) => ttg_operands(cs, i + 1, acc.push(g)),
                Err(e) => Err(e),
            },
            TokenView::Branch(TokenType::Group, _) => match ttg_spec(cs[i]) {
                Ok(g) => ttg_operands(cs, i + 1, acc.push(g)),
                Err(e) => Err(e),
            },
            _ => ttg_operands(cs, i + 1, acc),
        }
    }
}

/// Makes the error message of `token_tree_to_goal`.
fn tttg_message(err: &str, bad: &[char]) -> (m: String)
    ensures
        m@ == tttg_error(err@, bad@),
{
    let mut v: Vec<char> = Vec::new();
    append_str(&mut v, "token_tree_to_goal() - ");
    append_str(&mut v, err);
    v.push(' ');
    append_chars(&mut v, bad);
    chars_to_string(&v)
}

fn ttg_ref(token: &Token) -> (r: Result<Goal, String>)
    ensures
        goal_result_view(r) == ttg_spec(token@),
    decreases token, 1int,
{
    match token {
        Token::Leaf { token_type, token_str } => {
            if let TokenType::Subgoal = token_type {
                return parse_subgoal(token_str.as_str());
            }
            let e: Vec<char> = Vec::new();
            Err(tttg_message("Invalid. Leaf token must be Subgoal.", &e))
        },
        Token::Branch { token_type, children } => {
            proof {
                crate::token::lemma_branch_view(*token_type, *children);
            }
            let is_and = match token_type {
                TokenType::And => true,
                _ => false,
            };
            let is_or = match token_type {
                TokenType::Or => true,
                _ => false,
            };
            let is_group = match token_type {
                TokenType::Group => true,
                _ => false,
            };
            if is_and || is_or {
                match ttg_children(children) {
                    Ok(gs) => {
                        proof {
                            crate::goal::lemma_goals_seq(gs);
                        }
                        if is_and {
                            Ok(Goal::OperatorGoal(Operator::And(gs)))
                        } else {
                            Ok(Goal::OperatorGoal(Operator::Or(gs)))
                        }
                    },
                    Err(e) => Err(e),
                }
            } else if is_group {
                if children.len() != 1 {
                    let e: Vec<char> = Vec::new();
                    return Err(tttg_message("Group should have 1 child.", &e));
                }
                assert(decreases_to!(children => children@[0]));
                ttg_ref(&children[0])
            } else {
                let tt = token_type.to_display_string();
                let tv = str_to_chars(tt.as_str());
                Err(tttg_message("Invalid token type:", &tv))
            }
        },
    }
}

fn ttg_children(children: &Vec<Token>) -> (r: Result<Vec<Goal>, String>)
    ensures
        match r {
            Ok(gs) => ttg_operands(tokens_view(children@), 0, Seq::empty()) == Ok::<Seq<GoalView>, Seq<char>>(goals_view(gs@)),
            Err(e) => ttg_operands(tokens_view(children@), 0, Seq::empty()) == Err::<Seq<GoalView>, Seq<char>>(e@),
        },
    decreases children, 0int,
{
    let ghost cv = tokens_view(children@);
    let mut out: Vec<Goal> = Vec::new();
    let mut i: usize = 0;
    assert(goals_view(out@) =~= Seq::<GoalView>::empty());
    while i < children.len()
        invariant
            cv == tokens_view(children@),
            i <= children@.len(),
            ttg_operands(cv, i as int, goals_view(out@)) == ttg_operands(cv, 0, Seq::empty()),
        decreases children@.len() - i,
    {
        assert(decreases_to!(children => children@[i as int]));
        let c = &children[i];
        assert(cv[i as int] == c@);
        let ghost prev = goals_view(out@);
        match c {
            Token::Leaf { token_type: TokenType::Subgoal, token_str } => {
                match parse_subgoal(token_str.as_str()) {
                    Ok(g) => {
                        out.push(g);
                        assert(goals_view(out@) =~= prev.push(g@));
                    },
                    Err(e) => {
                        return Err(e);
                    },
                }
            },
            Token::Branch { token_type: TokenType::Group, children: cc } => {
                proof {
                    crate::token::lemma_branch_view(TokenType::Group, *cc);
                }
                match ttg_ref(c) {
                    Ok(g) => {
                        out.push(g);
                        assert(goals_view(out@) =~= prev.push(g@));
                    },
                    Err(e) => {
                        return Err(e);
                    },
                }
            },
            _ => {
                proof {
                    crate::token::lemma_token_view_kind(*c);
                }
            },
        }
        i = i + 1;
    }
    Ok(out)
}

/// Converts a token tree into a goal.
pub fn token_tree_to_goal(token: Token) -> (r: Result<Goal, String>)
    ensures
        goal_result_view(r) == ttg_spec(token@),
{
    ttg_ref(&token)
}

/// Every token that the tokenizer makes is a leaf of a leaf type.
proof fn lemma_tok_scan_wf(
    s: Seq<char>,
    i: int,
    start: int,
    stack: Seq<TokenType>,
    tokens: Seq<TokenView>,
    prev: char,
)
    requires
        forall|k: int| 0 <= k < tokens.len() ==> wf_token(#[trigger] tokens[k]),
    ensures
        tok_scan(s, i, start, stack, tokens, prev) matches Ok(ts) ==> forall|k: int|
            0 <= k < ts.len() ==> wf_token(#[trigger] ts[k]),
    decreases s.len() - i,
{
    if i < 0 || i >= s.len() {
        if stack.len() == 0 && s.len() - start > 0 {
            let ts = tokens.push(subgoal_leaf(s, start, s.len() as int));
            assert forall|k: int| 0 <= k < ts.len() implies wf_token(#[trigger] ts[k]) by {
                if k < tokens.len() {
                    assert(ts[k] == tokens[k]);
                }
            }
        }
    } else {
        let top = stack_top(stack);
        let ch = s[i];
        let leaf = subgoal_leaf(s, start, i);
        if ch == '"' {
            let j = next_index_of(s, i + 1, '"');
            lemma_next_index_of(s, i + 1, '"');
            if j >= 0 {
                lemma_tok_scan_wf(s, j + 1, start, stack, tokens, '"');
            } else {
                lemma_tok_scan_wf(s, i + 1, start, stack, tokens, if i + 1 < s.len() { s.last() } else { '"' });
            }
        } else if ch == '\\' && i + 1 < s.len() {
            lemma_tok_scan_wf(s, i + 2, start, stack, tokens, s[i + 1]);
        } else if ch == '(' {
            if is_letter_number_hyphen(prev) {
                lemma_tok_scan_wf(s, i + 1, start, stack.push(TokenType::Complex), tokens, ch);
            } else {
                let ts = tokens.push(TokenView::Leaf(TokenType::LParen, seq!['(']));
                assert forall|k: int| 0 <= k < ts.len() implies wf_token(#[trigger] ts[k]) by {
                    if k < tokens.len() {
                        assert(ts[k] == tokens[k]);
                    }
                }
                lemma_tok_scan_wf(s, i + 1, i + 1, stack.push(TokenType::Group), ts, ch);
            }
        } else if ch == ')' {
            if top != TokenType::Empty && stack.last() == TokenType::Group {
                let ts = tokens.push(leaf).push(TokenView::Leaf(TokenType::RParen, seq![')']));
                assert forall|k: int| 0 <= k < ts.len() implies wf_token(#[trigger] ts[k]) by {
                    if k < tokens.len() {
                        assert(ts[k] == tokens[k]);
                    }
                }
                lemma_tok_scan_wf(s, i + 1, i + 1, stack.drop_last(), ts, ch);
            } else if top != TokenType::Empty {
                lemma_tok_scan_wf(s, i + 1, start, stack.drop_last(), tokens, ch);
            }
        } else if ch == '[' {
            lemma_tok_scan_wf(s, i + 1, start, stack.push(TokenType::LinkedList), tokens, ch);
        } else if ch == ']' {
            if top != TokenType::Empty {
                lemma_tok_scan_wf(s, i + 1, start, stack.drop_last(), tokens, ch);
            }
        } else if top != TokenType::Complex && top != TokenType::LinkedList {
            if !is_invalid_between_terms(ch) && (ch == ',' || ch == ';') {
                let sym = if ch == ',' {
                    TokenView::Leaf(TokenType::Comma, seq![','])
                } else {
                    TokenView::Leaf(TokenType::Semicolon, seq![';'])
                };
                let ts = with_subgoal(tokens, s, start, i).push(sym);
                assert forall|k: int| 0 <= k < ts.len() implies wf_token(#[trigger] ts[k]) by {
                    if k < tokens.len() {
                        assert(ts[k] == tokens[k]);
                    }
                }
                lemma_tok_scan_wf(s, i + 1, i + 1, stack, ts, ch);
            } else {
                lemma_tok_scan_wf(s, i + 1, start, stack, tokens, ch);
            }
        } else {
            lemma_tok_scan_wf(s, i + 1, start, stack, tokens, ch);
        }
    }
}

/// What `generate_goal` gives for a text: tokens grouped, then And and Or
/// operators gathered, then converted to a goal.
pub open spec fn generate_goal_spec(to_parse: Seq<char>) -> Result<GoalView, Seq<char>> {
    match tokenize_spec(to_parse) {
        Ok(ts) => ttg_spec(or_spec(and_spec(group_loop(ts, 0, Seq::empty())))),
        Err(e) => Err(e),
    }
}

/// Generates a goal from a text, eg. the body of a rule:
/// `parent($X, $Y), female($X)`.
pub fn generate_goal(to_parse: &str) -> (r: Result<Goal, String>)
    ensures
        goal_result_view(r) == generate_goal_spec(to_parse@),
{
    match tokenize(to_parse) {
        Ok(tokens) => {
            proof {
                let s = trim(to_parse@);
                lemma_tok_scan_wf(s, 0, 0, Seq::empty(), Seq::empty(), '#');
                assert forall|k: int| 0 <= k < tokens@.len() implies wf_token(#[trigger] tokens@[k]@) by {
                    assert(tokens_view(tokens@)[k] == tokens@[k]@);
                }
            }
            let base = group_tokens(&tokens, 0);
            proof {
                lemma_wf_groups_are_branches(base@);
            }
            let base = group_and_tokens(base);
            let base = group_or_tokens(base);
            token_tree_to_goal(base)
        },
        Err(e) => Err(e),
    }
}
} // verus!
