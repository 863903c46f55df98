use nock::errors::WrappedError;
use nock::tokenizer::{is_complete_expr, ExpressionReader, Token, Tokenizer, TokenizerError};

pub struct MockReader {
    expr: Vec<String>,
    err: bool,
}

impl MockReader {
    pub fn new(expr: Vec<String>) -> Self {
        MockReader { expr: expr, err: false }
    }
}

impl ExpressionReader for MockReader {
    fn read(&mut self) -> Result<Vec<String>, WrappedError> {
        if !self.err {
            self.err = true;
            return Ok(self.expr.clone());
        } else {
            return Err(WrappedError::new("End Of Stream"));
        }
    }
}

fn assert_token_stream(toker: &mut Tokenizer<MockReader>, expect: Vec<(&str, usize, usize)>) {
    for (v, l, c) in expect {
        let tok = toker.next();
        println!("tok: {:?}", tok);
        assert!(tok.is_ok());
        let tok = tok.unwrap();
        assert_eq!(tok.val, *v);
        assert_eq!(tok.line, l);
        assert_eq!(tok.col, c);
    }
    assert!(toker.next().is_err());
}

#[test]
fn mock_reader_sanity_check() {
    let mut reader = MockReader::new(vec!["[1 2 3]".to_string()]);
    let expr = reader.read();
    assert!(expr.is_ok());
    let expr = reader.read();
    assert!(expr.is_err());
}

#[test]
fn test_tokenizer_simple_one_liner() {
    let reader = MockReader::new(vec!["[1 2 3]".to_string()]);
    let mut toker = Tokenizer::new(reader);
    let expect = vec![("[", 0, 0), ("1", 0, 1), ("2", 0, 3), ("3", 0, 5), ("]", 0, 6)];
    assert_token_stream(&mut toker, expect);
}

#[test]
fn test_tokenizer_simple_multi_line() {
    let reader = MockReader::new(vec!["[1 2 3".to_string(), "]".to_string()]);
    let mut toker = Tokenizer::new(reader);
    let expect = vec![("[", 0, 0), ("1", 0, 1), ("2", 0, 3), ("3", 0, 5), ("]", 1, 0)];
    assert_token_stream(&mut toker, expect);
}

#[test]
fn test_tokenizer_simple_multi_char_atoms() {
    let reader = MockReader::new(vec!["1234567890".to_string(), "123  1".to_string()]);
    let mut toker = Tokenizer::new(reader);
    let expect = vec![("1234567890", 0, 0), ("123", 1, 0), ("1", 1, 5)];
    assert_token_stream(&mut toker, expect);
}

#[test]
fn test_tokenizer_simple_multi_char_atoms_with_dot() {
    let reader = MockReader::new(vec!["123.4567.890".to_string(), "123  1".to_string()]);
    let mut toker = Tokenizer::new(reader);
    let expect = vec![("1234567890", 0, 0), ("123", 1, 0), ("1", 1, 5)];
    assert_token_stream(&mut toker, expect);
}

#[test]
fn tokenizer_digit_run_stops_before_a_bracket() {
    let reader = MockReader::new(vec!["[12]".to_string()]);
    let mut toker = Tokenizer::new(reader);
    let expect = vec![("[", 0, 0), ("12", 0, 1), ("]", 0, 3)];
    assert_token_stream(&mut toker, expect);
}

#[test]
fn tokenizer_drops_a_leading_dot() {
    let reader = MockReader::new(vec![".5 . 1.2".to_string()]);
    let mut toker = Tokenizer::new(reader);
    let expect = vec![("5", 0, 0), ("", 0, 3), ("12", 0, 5)];
    assert_token_stream(&mut toker, expect);
}

#[test]
fn tokenizer_rejects_an_invalid_character() {
    let reader = MockReader::new(vec!["[1 x]".to_string()]);
    let mut toker = Tokenizer::new(reader);
    assert_eq!(toker.next().unwrap().val, "[");
    assert_eq!(toker.next().unwrap().val, "1");
    match toker.next() {
        Err(TokenizerError::InvalidCharacter { ch, line, col }) => {
            assert_eq!(ch, 'x');
            assert_eq!(line, 0);
            assert_eq!(col, 3);
        }
        other => panic!("unexpected {:?}", other),
    }
    assert_eq!(toker.next().unwrap().val, "]");
}

#[test]
fn tokenizer_end_of_input_is_a_read_error() {
    let reader = MockReader::new(vec!["   ".to_string(), "\t".to_string()]);
    let mut toker = Tokenizer::new(reader);
    match toker.next() {
        Err(TokenizerError::Read(e)) => assert_eq!(e.message(), "End Of Stream"),
        other => panic!("unexpected {:?}", other),
    }
}

pub struct ThreeBuffers {
    n: usize,
}

impl ExpressionReader for ThreeBuffers {
    fn read(&mut self) -> Result<Vec<String>, WrappedError> {
        self.n += 1;
        match self.n {
            1 => Ok(vec!["  ".to_string()]),
            2 => Ok(vec![]),
            3 => Ok(vec![" 42".to_string()]),
            _ => Err(WrappedError::new("done")),
        }
    }
}

#[test]
fn tokenizer_skips_whitespace_only_buffers() {
    let mut toker = Tokenizer::new(ThreeBuffers { n: 0 });
    let tok = toker.next().unwrap();
    assert_eq!(tok.val, "42");
    assert_eq!((tok.line, tok.col), (0, 1));
    assert!(toker.next().is_err());
}

#[test]
fn token_kinds() {
    assert!(Token::new('7', 0, 0).is_atom());
    assert!(!Token::new('.', 0, 0).is_atom());
    assert!(Token::new('[', 0, 0).is_cell_start());
    assert!(Token::new(']', 0, 0).is_cell_end());
    let mut t = Token::new('1', 2, 3);
    t.append_char('0');
    assert_eq!(t.val, "10");
    assert!(t.is_atom());
    assert!(!t.is_cell_start());
}

#[test]
fn complete_expressions_balance_their_brackets() {
    assert!(is_complete_expr(&vec!["[1 2 3]".to_string()]));
    assert!(!is_complete_expr(&vec!["[1 [2 3]".to_string()]));
    assert!(is_complete_expr(&vec!["[1 [2 3]".to_string(), "]".to_string()]));
    assert!(is_complete_expr(&vec![]));
}

#[test]
fn wrapped_error_keeps_its_cause() {
    let inner = WrappedError::new("inner");
    let outer = WrappedError::with_cause("outer", inner);
    assert_eq!(outer.message(), "outer");
    assert_eq!(outer.cause().map(|c| c.message()), Some("inner"));
    assert!(WrappedError::new("x").cause().is_none());
}
