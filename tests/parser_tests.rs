use nock::errors::WrappedError;
use nock::nock::compute;
use nock::parser::{atom, Noun, ParseError, Parser};
use nock::tokenizer::{ExpressionReader, TokenizerError};

pub struct MockReader {
    expr: Vec<String>,
    err: bool,
}

impl MockReader {
    pub fn new(expr: Vec<String>) -> Self {
        MockReader { expr: expr, err: false }
    }
}

impl ExpressionReader for MockReader {
    fn read(&mut self) -> Result<Vec<String>, WrappedError> {
        if !self.err {
            self.err = true;
            return Ok(self.expr.clone());
        } else {
            return Err(WrappedError::new("End Of Stream"));
        }
    }
}

fn parse_text(text: &str) -> Result<Noun, ParseError> {
    let mut parser = Parser::new(MockReader::new(vec![text.to_string()]));
    parser.parse()
}

#[test]
fn test_parse_simple_atom() {
    let reader = MockReader::new(vec!["1".to_string()]);
    let mut parser = Parser::new(reader);
    let noun = parser.parse();
    assert!(noun.is_ok());
    let noun = noun.unwrap();
    assert_eq!(noun, Noun::Atom(1));
}

#[test]
fn test_parse_simple_cell() {
    let reader = MockReader::new(vec!["[1 2]".to_string()]);
    let mut parser = Parser::new(reader);
    let noun = parser.parse();
    assert!(noun.is_ok());
    let noun = noun.unwrap();
    assert_eq!(noun, Noun::Cell(vec![Noun::Atom(1), Noun::Atom(2)]));
}

#[test]
fn test_parse_autoconsed_cell() {
    let reader = MockReader::new(vec!["[1 2 3]".to_string()]);
    let mut parser = Parser::new(reader);
    let noun = parser.parse();
    assert!(noun.is_ok());
    let noun = noun.unwrap();
    assert_eq!(noun, Noun::Cell(vec![Noun::Atom(1), Noun::Atom(2), Noun::Atom(3)]));
}

#[test]
fn test_parse_consed_cell() {
    let reader = MockReader::new(vec!["[1 [2 3]]".to_string()]);
    let mut parser = Parser::new(reader);
    let noun = parser.parse();
    assert!(noun.is_ok());
    let noun = noun.unwrap();
    assert_eq!(noun, Noun::Cell(vec![Noun::Atom(1), Noun::Atom(2), Noun::Atom(3)]));
}

#[test]
fn test_parse_nested_cell() {
    let reader = MockReader::new(vec!["[1 [2 3] 4]".to_string()]);
    let mut parser = Parser::new(reader);
    let noun = parser.parse();
    assert!(noun.is_ok());
    let noun = noun.unwrap();
    assert_eq!(
        noun,
        Noun::Cell(vec![
            Noun::Atom(1),
            Noun::Cell(vec![Noun::Atom(2), Noun::Atom(3)]),
            Noun::Atom(4)
        ])
    );
}

#[test]
fn test_flatten() {
    let reader = MockReader::new(vec![
        "[[1 2] [1 2]]".to_string(),
        "[[1 [2 3] 4] [1 [2 3] 4]]".to_string(),
    ]);
    let mut parser = Parser::new(reader);
    let noun = parser.parse();
    assert!(noun.is_ok());
    let noun = noun.unwrap();
    assert_eq!(noun, Noun::Cell(vec![Noun::Cell(vec![atom(1), atom(2)]), atom(1), atom(2)]));
    let noun = parser.parse();
    assert!(noun.is_ok());
    let noun = noun.unwrap();
    assert_eq!(
        noun,
        Noun::Cell(vec![
            Noun::Cell(vec![atom(1), Noun::Cell(vec![atom(2), atom(3)]), atom(4)]),
            atom(1),
            Noun::Cell(vec![atom(2), atom(3)]),
            atom(4)
        ])
    );
}

#[test]
fn parse_deep_right_nesting_flattens() {
    let noun = parse_text("[1 [2 [3 [4 5]]]]").unwrap();
    assert_eq!(noun, Noun::Cell(vec![atom(1), atom(2), atom(3), atom(4), atom(5)]));
}

#[test]
fn parse_dotted_atom() {
    assert_eq!(parse_text("1.000.000").unwrap(), atom(1000000));
}

#[test]
fn parse_largest_atom() {
    assert_eq!(parse_text("18446744073709551615").unwrap(), atom(u64::MAX));
}

#[test]
fn parse_atom_overflow_is_an_error() {
    assert_eq!(
        parse_text("18446744073709551616"),
        Err(ParseError::BadAtom { line: 0, col: 0 })
    );
}

#[test]
fn parse_one_element_cell_is_an_error() {
    assert_eq!(parse_text("[5]"), Err(ParseError::ShortCell { line: 0, col: 2 }));
}

#[test]
fn parse_empty_cell_is_an_error() {
    assert_eq!(parse_text("[]"), Err(ParseError::UnhandledToken { line: 0, col: 1 }));
}

#[test]
fn parse_unmatched_close_is_an_error() {
    assert_eq!(parse_text("]"), Err(ParseError::UnhandledToken { line: 0, col: 0 }));
}

#[test]
fn parse_leading_dot_is_dropped() {
    assert_eq!(parse_text("[1 .5]").unwrap(), Noun::Cell(vec![atom(1), atom(5)]));
}

#[test]
fn parse_lone_dot_is_an_empty_run() {
    assert_eq!(parse_text("."), Err(ParseError::BadAtom { line: 0, col: 0 }));
    assert_eq!(parse_text("[1 ..]"), Err(ParseError::BadAtom { line: 0, col: 3 }));
}

#[test]
fn parse_flattens_the_whole_tail_chain() {
    let v = Noun::flatten(vec![
        atom(1),
        Noun::Cell(vec![atom(2), Noun::Cell(vec![atom(3), atom(4)])]),
    ]);
    assert_eq!(v, vec![atom(1), atom(2), atom(3), atom(4)]);
}

#[test]
fn parse_unfinished_cell_is_a_tokenizer_error() {
    match parse_text("[1 2") {
        Err(ParseError::Tokenizer(TokenizerError::Read(_))) => {}
        other => panic!("unexpected {:?}", other),
    }
}

#[test]
fn parse_invalid_character_is_a_tokenizer_error() {
    match parse_text("[1 a]") {
        Err(ParseError::Tokenizer(TokenizerError::InvalidCharacter { ch, .. })) => {
            assert_eq!(ch, 'a')
        }
        other => panic!("unexpected {:?}", other),
    }
}

#[test]
fn render_round_trip() {
    let cases = vec![
        ("0", "0"),
        ("42", "42"),
        ("[1 2]", "[1 2]"),
        ("[1   [2\t3]]", "[1 2 3]"),
        ("[ [1 2] [3 4] ]", "[[1 2] 3 4]"),
        ("[1 [2 3] 4]", "[1 [2 3] 4]"),
        ("[531 [25 26] 99]", "[531 [25 26] 99]"),
        ("1.000", "1000"),
    ];
    for (text, canonical) in cases {
        let noun = parse_text(text).unwrap();
        assert_eq!(noun.render(), canonical);
        assert_eq!(parse_text(&noun.render()).unwrap(), noun);
    }
}

#[test]
fn parse_then_compute() {
    assert_eq!(
        compute(parse_text("[[1 2] [0 1]]").unwrap()),
        Ok(Noun::Cell(vec![atom(1), atom(2)]))
    );
    assert_eq!(compute(parse_text("[42 [4 0 1]]").unwrap()), Ok(atom(43)));
    assert_eq!(compute(parse_text("[[0 1] [3 0 1]]").unwrap()), Ok(atom(0)));
}

#[test]
fn head_and_tail_of_nouns() {
    let noun = Noun::Cell(vec![atom(1), atom(2), atom(3)]);
    assert_eq!(noun.head(), Ok(&atom(1)));
    assert_eq!(noun.tail().unwrap().len(), 2);
    assert_eq!(atom(1).head(), Err(ParseError::NoHead));
    assert_eq!(atom(1).tail().map(|t| t.len()), Err(ParseError::NoTail));
}

#[test]
fn flatten_splices_only_a_last_cell() {
    let v = Noun::flatten(vec![atom(0), Noun::Cell(vec![atom(1), atom(2)])]);
    assert_eq!(v, vec![atom(0), atom(1), atom(2)]);
    let v = Noun::flatten(vec![atom(0), Noun::Cell(vec![atom(1), atom(2)]), atom(3)]);
    assert_eq!(v, vec![atom(0), Noun::Cell(vec![atom(1), atom(2)]), atom(3)]);
}

#[test]
fn duplicate_is_equal() {
    let noun = Noun::Cell(vec![atom(1), Noun::Cell(vec![atom(2), atom(3)])]);
    assert_eq!(noun.duplicate(), noun);
}
