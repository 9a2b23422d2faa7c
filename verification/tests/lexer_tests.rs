use chunk_canvas::lexer::{Lexer, OperandKind};

#[test]
fn peek_does_not_advance() {
    let lx = Lexer::new("ab");
    assert_eq!(lx.peek(), Some('a'));
    assert_eq!(lx.peek(), Some('a'));
}

#[test]
fn next_walks_the_input_and_ends_with_none() {
    let mut lx = Lexer::new("ab");
    assert_eq!(lx.next(), Some('a'));
    assert_eq!(lx.next(), Some('b'));
    assert_eq!(lx.next(), None);
    assert_eq!(lx.next(), None);
}

#[test]
fn peek_on_empty_input_is_none() {
    let lx = Lexer::new("");
    assert_eq!(lx.peek(), None);
}

#[test]
fn consume_whitespace_skips_to_the_first_dark_character() {
    let mut lx = Lexer::new(" \t\n x");
    lx.consume_whitespace();
    assert_eq!(lx.peek(), Some('x'));
}

#[test]
fn consume_whitespace_on_no_whitespace_stays_put() {
    let mut lx = Lexer::new("x ");
    lx.consume_whitespace();
    assert_eq!(lx.peek(), Some('x'));
}

#[test]
fn consume_whitespace_at_end_of_input() {
    let mut lx = Lexer::new("  ");
    lx.consume_whitespace();
    assert_eq!(lx.peek(), None);
}

#[test]
fn consume_operand_recognizes_each_operator() {
    assert_eq!(Lexer::new("+").consume_operand(), OperandKind::Add);
    assert_eq!(Lexer::new("-").consume_operand(), OperandKind::Min);
    assert_eq!(Lexer::new("*").consume_operand(), OperandKind::Mul);
    assert_eq!(Lexer::new("/").consume_operand(), OperandKind::Div);
    assert_eq!(Lexer::new("^").consume_operand(), OperandKind::Pow);
}

#[test]
fn consume_operand_skips_leading_whitespace() {
    let mut lx = Lexer::new("   * 3");
    assert_eq!(lx.consume_operand(), OperandKind::Mul);
    assert_eq!(lx.peek(), Some(' '));
}
