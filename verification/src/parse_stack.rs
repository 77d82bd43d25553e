use vstd::prelude::*;
use crate::token::TokenType;

verus! {

/// The parse stack holds token types; the top is the last element.
pub type ParseStack = Vec<TokenType>;

/// Peeks at the top (last in item) of the parse stack.
/// An empty stack gives `TokenType::Empty`.
pub fn peek(stack: &mut ParseStack) -> (top: TokenType)
    ensures
        final(stack)@ == old(stack)@,
        old(stack)@.len() == 0 ==> top == TokenType::Empty,
        old(stack)@.len() > 0 ==> top == old(stack)@.last(),
{
    let length = stack.len();
    if length == 0 {
        return TokenType::Empty;
    }
    stack[length - 1]
}

/// Pops the top item from the stack; an empty stack gives `TokenType::Empty`.
pub fn pop(stack: &mut ParseStack) -> (top: TokenType)
    ensures
        old(stack)@.len() == 0 ==> top == TokenType::Empty && final(stack)@ == old(stack)@,
        old(stack)@.len() > 0 ==> top == old(stack)@.last() && final(stack)@ == old(stack)@.drop_last(),
{
    match stack.pop() {
        Some(tt) => tt,
        None => TokenType::Empty,
    }
}

} // verus!
