use nock::nock::{compute, fas, lus, nock_internal, tis, wut, NockError, MAX_DEPTH};
use nock::parser::{atom, Noun, ParseError};

fn cell(items: Vec<Noun>) -> Noun {
    Noun::Cell(Noun::flatten(items))
}

#[test]
fn test_simple_fas() {
    // /[1 [531 25 99]] is [531 25 99];
    let cases = vec![
        (cell(vec![atom(531), atom(25), atom(99)]), 1, cell(vec![atom(531), atom(25), atom(99)])),
        // /[2 [531 25 99]] is 531;
        (cell(vec![atom(531), atom(25), atom(99)]), 2, atom(531)),
        // /[3 [531 25 99]] is [25 99];
        (cell(vec![atom(531), atom(25), atom(99)]), 3, cell(vec![atom(25), atom(99)])),
        // /[6 [531 25 99]] is 25;
        (cell(vec![atom(531), atom(25), atom(99)]), 6, atom(25)),
        (
            cell(vec![atom(531), cell(vec![atom(25), atom(26)]), atom(99)]),
            6,
            cell(vec![atom(25), atom(26)]),
        ),
        (cell(vec![atom(531), cell(vec![atom(25), atom(26)]), atom(99)]), 12, atom(25)),
        (cell(vec![atom(531), cell(vec![atom(25), atom(26)]), atom(99)]), 13, atom(26)),
    ];
    for (subj, addr, expected) in cases {
        assert_eq!(expected, fas(&subj, addr).unwrap());
    }
}

#[test]
fn fas_address_zero_is_an_error() {
    assert_eq!(fas(&atom(7), 0), Err(NockError::InvalidAddress));
    let subj = cell(vec![atom(531), atom(25), atom(99)]);
    assert_eq!(fas(&subj, 0), Err(NockError::InvalidAddress));
}

#[test]
fn fas_too_deep_for_the_subject_is_an_error() {
    let subj = cell(vec![atom(531), atom(25), atom(99)]);
    assert_eq!(fas(&subj, 12), Err(NockError::Parse(ParseError::NoHead)));
    assert_eq!(fas(&atom(5), 3), Err(NockError::Parse(ParseError::NoTail)));
}

#[test]
fn fas_address_seven_is_the_last_tail() {
    let subj = cell(vec![atom(531), atom(25), atom(99)]);
    assert_eq!(fas(&subj, 7), Ok(atom(99)));
}

#[test]
fn test_lus() {
    assert_eq!(lus(atom(1)).expect("Should be able to increment an atom"), atom(2));
}

#[test]
fn lus_of_a_cell_is_an_error() {
    assert_eq!(lus(cell(vec![atom(1), atom(2)])), Err(NockError::IncrementCell));
}

#[test]
fn lus_wraps_at_the_largest_atom() {
    assert_eq!(lus(atom(u64::MAX)), Ok(atom(0)));
}

#[test]
fn wut_tells_cells_from_atoms() {
    assert_eq!(wut(atom(3)), atom(1));
    assert_eq!(wut(cell(vec![atom(1), atom(2)])), atom(0));
}

#[test]
fn test_tis() {
    assert_eq!(
        tis(cell(vec![atom(1), atom(1)])).expect("Should be able to compare a Noun::Cell"),
        atom(0)
    );
    assert_eq!(
        tis(cell(vec![atom(0), atom(1)])).expect("Should be able to compare a Noun::Cell"),
        atom(1)
    );
    assert_eq!(
        tis(cell(vec![atom(0), cell(vec![atom(1), atom(2)])]))
            .expect("Should be able to compare a Noun::Cell"),
        atom(1)
    );
    assert_eq!(
        tis(cell(vec![cell(vec![atom(1), atom(2)]), cell(vec![atom(1), atom(2)])]))
            .expect("Should be able to compare a Noun::Cell"),
        atom(0)
    );
    assert_eq!(
        tis(cell(vec![
            cell(vec![atom(1), cell(vec![atom(2), atom(3)]), atom(4)]),
            cell(vec![atom(1), cell(vec![atom(2), atom(3)]), atom(4)])
        ]))
        .expect("Should be able to compare a Noun::Cell"),
        atom(0)
    );
}

#[test]
fn tis_of_an_atom_is_an_error() {
    assert_eq!(tis(atom(1)), Err(NockError::CompareAtom));
}

#[test]
fn tis_of_a_one_element_cell_is_an_error() {
    assert_eq!(tis(cell(vec![atom(1)])), Err(NockError::CompareShortCell));
}

#[test]
fn tis_compares_nested_cells_with_their_autoconsed_form() {
    // [[1 [2 3]] 1 [2 3]] compares [1 [2 3]] with [1 [2 3]]
    let head = Noun::Cell(vec![atom(1), Noun::Cell(vec![atom(2), atom(3)])]);
    let noun = Noun::Cell(vec![head, atom(1), Noun::Cell(vec![atom(2), atom(3)])]);
    assert_eq!(tis(noun), Ok(atom(0)));
    let other = Noun::Cell(vec![atom(1), Noun::Cell(vec![atom(2), atom(4)])]);
    let noun = Noun::Cell(vec![other, atom(1), Noun::Cell(vec![atom(2), atom(3)])]);
    assert_eq!(tis(noun), Ok(atom(1)));
    let same = Noun::Cell(vec![
        Noun::Cell(vec![atom(4), atom(5)]),
        Noun::Cell(vec![atom(4), atom(5)]),
    ]);
    assert_eq!(tis(same), Ok(atom(0)));
}

#[test]
fn compute_quote_then_fetch() {
    // [[1 2] [0 1]]
    let noun = Noun::Cell(vec![
        Noun::Cell(vec![atom(1), atom(2)]),
        atom(0),
        atom(1),
    ]);
    assert_eq!(compute(noun), Ok(Noun::Cell(vec![atom(1), atom(2)])));
}

#[test]
fn compute_increment_of_the_subject() {
    // [42 [4 0 1]]
    let noun = Noun::Cell(vec![atom(42), atom(4), atom(0), atom(1)]);
    assert_eq!(compute(noun), Ok(atom(43)));
}

#[test]
fn compute_cell_test_of_a_cell() {
    // [[0 1] [3 0 1]]
    let noun = Noun::Cell(vec![Noun::Cell(vec![atom(0), atom(1)]), atom(3), atom(0), atom(1)]);
    assert_eq!(compute(noun), Ok(atom(0)));
}

#[test]
fn compute_of_an_atom_is_an_infinite_loop() {
    assert_eq!(compute(atom(5)), Err(NockError::InfiniteLoop));
}

#[test]
fn compute_of_a_short_cell_is_invalid() {
    assert_eq!(compute(Noun::Cell(vec![atom(5)])), Err(NockError::InvalidExpression));
}

#[test]
fn quote_returns_the_tail() {
    // *[7 [1 5 6]] is [5 6]
    let f = cell(vec![atom(1), atom(5), atom(6)]);
    assert_eq!(nock_internal(&atom(7), f, MAX_DEPTH), Ok(cell(vec![atom(5), atom(6)])));
}

#[test]
fn eval_evaluates_a_computed_formula() {
    // *[7 [2 [0 1] [1 4 0 1]]] is *[7 [4 0 1]], that is 8
    let f = cell(vec![
        atom(2),
        cell(vec![atom(0), atom(1)]),
        cell(vec![atom(1), atom(4), atom(0), atom(1)]),
    ]);
    assert_eq!(nock_internal(&atom(7), f, MAX_DEPTH), Ok(atom(8)));
}

#[test]
fn eval_needs_two_operands() {
    let f = Noun::Cell(vec![atom(2), cell(vec![atom(0), atom(1)])]);
    assert_eq!(nock_internal(&atom(7), f, MAX_DEPTH), Err(NockError::TooFewOperands(2)));
}

#[test]
fn increment_of_a_literal_atom() {
    // *[0 [4 9]] is 10
    let f = cell(vec![atom(4), atom(9)]);
    assert_eq!(nock_internal(&atom(0), f, MAX_DEPTH), Ok(atom(10)));
}

#[test]
fn equality_of_quoted_atoms() {
    // *[0 [5 3 3]] is 0 and *[0 [5 3 4]] is 1
    let f = cell(vec![atom(5), atom(3), atom(3)]);
    assert_eq!(nock_internal(&atom(0), f, MAX_DEPTH), Ok(atom(0)));
    let f = cell(vec![atom(5), atom(3), atom(4)]);
    assert_eq!(nock_internal(&atom(0), f, MAX_DEPTH), Ok(atom(1)));
}

#[test]
fn distribution_pairs_the_results() {
    // *[42 [[4 0 1] [0 1]]] is [43 42]
    let f = Noun::Cell(vec![
        cell(vec![atom(4), atom(0), atom(1)]),
        cell(vec![atom(0), atom(1)]),
    ]);
    assert_eq!(nock_internal(&atom(42), f, MAX_DEPTH), Ok(cell(vec![atom(43), atom(42)])));
}

#[test]
fn slot_operand_must_be_an_atom() {
    let f = Noun::Cell(vec![atom(0), Noun::Cell(vec![atom(1), atom(2)])]);
    assert_eq!(nock_internal(&atom(0), f, MAX_DEPTH), Err(NockError::NotASlot));
}

#[test]
fn unknown_opcode_is_an_error() {
    let f = cell(vec![atom(11), atom(0), atom(1)]);
    assert_eq!(nock_internal(&atom(0), f, MAX_DEPTH), Err(NockError::UnknownInstruction(11)));
}

#[test]
fn macro_with_too_few_operands_is_an_error() {
    let f = cell(vec![atom(6), atom(1), atom(2)]);
    assert_eq!(nock_internal(&atom(0), f, MAX_DEPTH), Err(NockError::TooFewOperands(6)));
}

#[test]
fn compose_feeds_one_formula_into_the_next() {
    // *[5 [7 [4 0 1] [4 0 1]]] is 7
    let f = cell(vec![
        atom(7),
        cell(vec![atom(4), atom(0), atom(1)]),
        cell(vec![atom(4), atom(0), atom(1)]),
    ]);
    assert_eq!(nock_internal(&atom(5), f, MAX_DEPTH), Ok(atom(7)));
}

#[test]
fn push_puts_a_result_in_front_of_the_subject() {
    // *[5 [8 [4 0 1] [0 1]]] is [6 5]
    let f = cell(vec![
        atom(8),
        cell(vec![atom(4), atom(0), atom(1)]),
        cell(vec![atom(0), atom(1)]),
    ]);
    assert_eq!(nock_internal(&atom(5), f, MAX_DEPTH), Ok(cell(vec![atom(6), atom(5)])));
}

#[test]
fn invoke_runs_a_formula_kept_in_the_core() {
    // *[0 [9 2 [1 [4 0 3] 41]]]: the core [[4 0 3] 41] runs its head against itself
    let core = cell(vec![cell(vec![atom(4), atom(0), atom(3)]), atom(41)]);
    let f = cell(vec![atom(9), atom(2), cell(vec![atom(1), core])]);
    assert_eq!(nock_internal(&atom(0), f, MAX_DEPTH), Ok(atom(42)));
}

#[test]
fn hint_with_an_atom_evaluates_the_formula() {
    // *[5 [10 3 [4 0 1]]] is 6
    let f = cell(vec![atom(10), atom(3), cell(vec![atom(4), atom(0), atom(1)])]);
    assert_eq!(nock_internal(&atom(5), f, MAX_DEPTH), Ok(atom(6)));
}

#[test]
fn if_then_else_selects_the_then_branch() {
    // [42 [6 [1 0] [1 5] [1 6]]] is 5
    let noun = Noun::Cell(vec![
        atom(42),
        atom(6),
        Noun::Cell(vec![atom(1), atom(0)]),
        Noun::Cell(vec![atom(1), atom(5)]),
        atom(1),
        atom(6),
    ]);
    assert_eq!(compute(noun), Ok(atom(5)));
}

#[test]
fn if_then_else_selects_the_else_branch() {
    // *[42 [6 [1 1] [1 5] [1 6]]] is 6
    let f = cell(vec![
        atom(6),
        cell(vec![atom(1), atom(1)]),
        cell(vec![atom(1), atom(5)]),
        cell(vec![atom(1), atom(6)]),
    ]);
    assert_eq!(nock_internal(&atom(42), f, MAX_DEPTH), Ok(atom(6)));
}

#[test]
fn if_then_else_tests_the_subject() {
    // *[[0 1] [6 [3 0 1] [4 0 2] [0 3]]]: the subject is a cell, so [4 0 2] runs
    let subj = cell(vec![atom(0), atom(1)]);
    let f = cell(vec![
        atom(6),
        cell(vec![atom(3), atom(0), atom(1)]),
        cell(vec![atom(4), atom(0), atom(2)]),
        cell(vec![atom(0), atom(3)]),
    ]);
    assert_eq!(nock_internal(&subj, f, MAX_DEPTH), Ok(atom(1)));
}

#[test]
fn reduction_stops_at_the_depth_allowance() {
    let f = cell(vec![atom(2), atom(2), atom(0), atom(1)]);
    assert_eq!(nock_internal(&atom(0), f, 1), Err(NockError::TooDeep));
}

#[test]
fn errors_carry_messages() {
    assert_eq!(NockError::InvalidAddress.message(), "invalid slot address 0");
    assert_eq!(NockError::Parse(ParseError::NoHead).message(), "noun of the wrong shape");
    assert_eq!(ParseError::NoHead.message(), "atoms and empty cells have no head");
}
