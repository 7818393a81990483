use bfi::token::Token;

#[test]
fn the_eight_operators_are_tokens() {
    for c in ['+', '-', '>', '<', '[', ']', '.', ','] {
        assert_eq!(Token::try_from(c), Some(Token(c)));
    }
}

#[test]
fn everything_else_is_a_comment() {
    for c in ['a', ' ', '\n', '0', '{', '('] {
        assert_eq!(Token::try_from(c), None);
    }
}
