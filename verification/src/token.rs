use vstd::prelude::*;

verus! {

/// True of the six operators that fold: a run of the same one of these
/// becomes a single counted instruction.
pub open spec fn is_foldable_char(c: char) -> bool {
    c == '+' || c == '-' || c == '>' || c == '<' || c == ',' || c == '.'
}

/// True of the eight operator characters; every other character is a
/// comment and is invisible to the compiler.
pub open spec fn is_op_char(c: char) -> bool {
    is_foldable_char(c) || c == '[' || c == ']'
}

/// A legal source-code character: one of the eight operators.
#[derive(Debug, Copy, Clone, PartialEq, Eq, Structural)]
pub struct Token(pub char);

impl Token {
    /// Classifies a source character: an operator becomes a token, anything
    /// else is rejected.
    pub fn try_from(ch: char) -> (r: Option<Token>)
        ensures
            r == (if is_op_char(ch) {
                Some(Token(ch))
            } else {
                None::<Token>
            }),
    {
        match ch {
            '+' => Some(Token('+')),
            '-' => Some(Token('-')),
            '>' => Some(Token('>')),
            '<' => Some(Token('<')),
            '[' => Some(Token('[')),
            ']' => Some(Token(']')),
            '.' => Some(Token('.')),
            ',' => Some(Token(',')),
            _ => None,
        }
    }
}

} // verus!
