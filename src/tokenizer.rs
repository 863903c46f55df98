//! The tokenizer turns lines of Nock text into tokens.
use vstd::prelude::*;
use vstd::string::StrSliceExecFns;
use vstd::utf8::encode_utf8;

use crate::errors::WrappedError;

verus! {

/// Relies on `String::push`, which appends the given character to the end
/// of the string.
pub assume_specification[ String::push ](s: &mut String, ch: char)
    ensures
        final(s)@ == old(s)@.push(ch),
;

/// The model of a token: its text and where its first character stands.
pub struct Lexeme {
    pub text: Seq<char>,
    pub line: int,
    pub col: int,
}

/// Token is a token of Nock text, with the line and column of its first
/// character.
#[derive(Debug)]
pub struct Token {
    pub line: usize,
    pub col: usize,
    pub val: String,
}

pub open spec fn is_digit(c: char) -> bool {
    '0' <= c <= '9'
}

/// The whitespace between tokens: space, tab, carriage return, line feed.
pub open spec fn is_space(c: char) -> bool {
    c == ' ' || c == '\t' || c == '\r' || c == '\n'
}

/// The text of a digit-run token: it starts with a digit, or is empty when
/// the run held dots alone.
pub open spec fn is_atom_text(v: Seq<char>) -> bool {
    v.len() == 0 || is_digit(v[0])
}

impl Token {
    pub open spec fn view(&self) -> Lexeme {
        Lexeme { text: self.val@, line: self.line as int, col: self.col as int }
    }

    /// A token of the one character `c`, found at `line` and `col`.
    pub fn new(c: char, line: usize, col: usize) -> (r: Self)
        ensures
            r@ == (Lexeme { text: seq![c], line: line as int, col: col as int }),
    {
        let mut val = String::new();
        val.push(c);
        assert(val@ =~= seq![c]);
        Token { line: line, col: col, val: val }
    }

    /// A digit-run token, found at `line` and `col`, whose first character
    /// was a dot and holds no digit yet.
    fn empty_run(line: usize, col: usize) -> (r: Self)
        ensures
            r@ == (Lexeme { text: Seq::empty(), line: line as int, col: col as int }),
    {
        Token { line: line, col: col, val: String::new() }
    }

    /// append_char appends a character to the text of the token.
    pub fn append_char(&mut self, c: char)
        ensures
            final(self)@ == (Lexeme { text: old(self)@.text.push(c), ..old(self)@ }),
    {
        self.val.push(c);
    }

    /// is_atom tells whether the token is a digit run (empty when the run
    /// held dots alone).
    pub fn is_atom(&self) -> (r: bool)
        ensures
            r == is_atom_text(self@.text),
    {
        let s = self.val.as_str();
        if s.is_empty() {
            return true;
        }
        let c = s.get_char(0);
        '0' <= c && c <= '9'
    }

    /// is_cell_start tells whether the token opens a cell.
    pub fn is_cell_start(&self) -> (r: bool)
        ensures
            r == (self@.text == seq!['[']),
    {
        let s = self.val.as_str();
        if s.unicode_len() != 1 {
            assert(s@.len() != 1 ==> s@ != seq!['[']);
            return false;
        }
        let r = s.get_char(0) == '[';
        assert(r ==> s@ =~= seq!['[']);
        r
    }

    /// is_cell_end tells whether the token closes a cell.
    pub fn is_cell_end(&self) -> (r: bool)
        ensures
            r == (self@.text == seq![']']),
    {
        let s = self.val.as_str();
        if s.unicode_len() != 1 {
            assert(s@.len() != 1 ==> s@ != seq![']']);
            return false;
        }
        let r = s.get_char(0) == ']';
        assert(r ==> s@ =~= seq![']']);
        r
    }
}

/// Why the tokenizer could not produce a token.
#[derive(Debug, PartialEq)]
pub enum TokenizerError {
    /// A character that no token can start with.
    InvalidCharacter { ch: char, line: usize, col: usize },
    /// The reader reported an error, which includes the end of its input.
    Read(WrappedError),
    /// The tokenizer has used up the number of reads it may perform.
    OutOfReads,
}

impl TokenizerError {
    /// The human-readable message of this error, without its cause.
    pub open spec fn spec_message(&self) -> Seq<char> {
        match self {
            TokenizerError::InvalidCharacter { .. } => "invalid character"@,
            TokenizerError::Read(_) => "read error"@,
            TokenizerError::OutOfReads => "no reads left"@,
        }
    }

    /// The human-readable message of this error, without its cause.
    pub fn message(&self) -> (r: &'static str)
        ensures
            r@ == self.spec_message(),
    {
        match self {
            TokenizerError::InvalidCharacter { .. } => "invalid character",
            TokenizerError::Read(_) => "read error",
            TokenizerError::OutOfReads => "no reads left",
        }
    }
}

/// The bytes of each line of a buffer.
pub open spec fn byte_lines(lines: Seq<String>) -> Seq<Seq<u8>> {
    Seq::new(lines.len(), |i: int| encode_utf8(lines[i]@))
}

/// A position in a buffer: on a line, at most one past its last byte (where
/// a line feed stands in for the end of the line), or just past the last line.
pub open spec fn valid_pos(b: Seq<Seq<u8>>, line: int, col: int) -> bool {
    0 <= line <= b.len() && 0 <= col && (line < b.len() ==> col <= b[line].len()) && (line
        == b.len() ==> col == 0)
}

/// The character at a position on a line: the byte there, or a line feed at
/// the end of the line.
pub open spec fn char_at(b: Seq<Seq<u8>>, line: int, col: int) -> char {
    if col < b[line].len() {
        b[line][col] as char
    } else {
        '\n'
    }
}

/// The position after the character at a position on a line.
pub open spec fn next_pos(b: Seq<Seq<u8>>, line: int, col: int) -> (int, int) {
    if col < b[line].len() {
        (line, col + 1)
    } else {
        (line + 1, 0)
    }
}

/// How many characters the lines from `line` on hold, a line feed included
/// for each.
pub open spec fn rest_len(b: Seq<Seq<u8>>, line: int) -> int
    decreases b.len() - line,
{
    if line < 0 || line >= b.len() {
        0
    } else {
        b[line].len() + 1 + rest_len(b, line + 1)
    }
}

pub proof fn lemma_rest_len_nonneg(b: Seq<Seq<u8>>, line: int)
    ensures
        rest_len(b, line) >= 0,
    decreases b.len() - line,
{
    if 0 <= line < b.len() {
        lemma_rest_len_nonneg(b, line + 1);
    }
}

/// How many characters are left from a position to the end of the buffer.
pub open spec fn remaining(b: Seq<Seq<u8>>, line: int, col: int) -> int {
    rest_len(b, line) - col
}

/// The rest of a digit run, from a position on a line: digits are appended
/// to `val`, dots are skipped, whitespace ends the run and is consumed, and
/// any other character ends it and is left where it is. The result is the
/// text and the position after the run.
pub open spec fn gobble(b: Seq<Seq<u8>>, line: int, col: int, val: Seq<char>) -> (
    Seq<char>,
    int,
    int,
)
    decreases b[line].len() - col,
{
    if !(0 <= line < b.len()) || col < 0 || col >= b[line].len() {
        (val, line + 1, 0)
    } else {
        let c = b[line][col] as char;
        if is_space(c) {
            (val, line, col + 1)
        } else if c == '.' {
            gobble(b, line, col + 1, val)
        } else if is_digit(c) {
            gobble(b, line, col + 1, val.push(c))
        } else {
            (val, line, col)
        }
    }
}

/// The text that a digit run starts with: its first digit, or nothing when
/// it starts with a dot.
pub open spec fn run_start(c: char) -> Seq<char> {
    if c == '.' {
        Seq::empty()
    } else {
        seq![c]
    }
}

/// What scanning a buffer from a position finds.
pub enum Scan {
    /// A token, and the position after it.
    Found(Lexeme, int, int),
    /// A character that starts no token, where it stands, and the position
    /// after it.
    Invalid { ch: char, line: int, col: int, next_line: int, next_col: int },
    /// Nothing but whitespace is left.
    Exhausted,
}

/// The first token of a buffer from a position on: whitespace is skipped,
/// `[` and `]` are tokens of their own, and a digit or a dot starts a digit
/// run, whose dots are dropped.
pub open spec fn scan(b: Seq<Seq<u8>>, line: int, col: int) -> Scan
    decreases remaining(b, line, col),
    via scan_decreases
{
    if !(0 <= line < b.len() && 0 <= col <= b[line].len()) {
        Scan::Exhausted
    } else {
        let c = char_at(b, line, col);
        let (l2, c2) = next_pos(b, line, col);
        if c == '[' || c == ']' {
            Scan::Found(Lexeme { text: seq![c], line, col }, l2, c2)
        } else if is_digit(c) || c == '.' {
            let (v, l3, c3) = gobble(b, l2, c2, run_start(c));
            Scan::Found(Lexeme { text: v, line, col }, l3, c3)
        } else if is_space(c) {
            scan(b, l2, c2)
        } else {
            Scan::Invalid { ch: c, line, col, next_line: l2, next_col: c2 }
        }
    }
}

#[via_fn]
proof fn scan_decreases(b: Seq<Seq<u8>>, line: int, col: int) {
    if 0 <= line < b.len() && 0 <= col <= b[line].len() {
        lemma_rest_len_nonneg(b, line + 1);
    }
}

proof fn lemma_remaining_nonneg(b: Seq<Seq<u8>>, line: int, col: int)
    requires
        valid_pos(b, line, col),
    ensures
        remaining(b, line, col) >= 0,
{
    lemma_rest_len_nonneg(b, line + 1);
}

proof fn lemma_gobble_progress(b: Seq<Seq<u8>>, line: int, col: int, val: Seq<char>)
    requires
        0 <= line < b.len(),
        0 <= col <= b[line].len(),
    ensures
        valid_pos(b, gobble(b, line, col, val).1, gobble(b, line, col, val).2),
        remaining(b, gobble(b, line, col, val).1, gobble(b, line, col, val).2) <= remaining(
            b,
            line,
            col,
        ),
    decreases b[line].len() - col,
{
    if col < b[line].len() {
        let c = b[line][col] as char;
        if !is_space(c) && (c == '.' || is_digit(c)) {
            let v2 = if c == '.' {
                val
            } else {
                val.push(c)
            };
            lemma_gobble_progress(b, line, col + 1, v2);
        }
    }
}

/// Scanning moves forward to a valid position whenever it finds a token.
proof fn lemma_scan_progress(b: Seq<Seq<u8>>, line: int, col: int)
    ensures
        scan(b, line, col) matches Scan::Found(_, l2, c2) ==> valid_pos(b, l2, c2) && remaining(
            b,
            l2,
            c2,
        ) < remaining(b, line, col),
    decreases remaining(b, line, col),
{
    if 0 <= line < b.len() && 0 <= col <= b[line].len() {
        lemma_remaining_nonneg(b, line, col);
        let c = char_at(b, line, col);
        let (l2, c2) = next_pos(b, line, col);
        if is_digit(c) || c == '.' {
            lemma_gobble_progress(b, l2, c2, Seq::empty());
            lemma_gobble_progress(b, l2, c2, seq![c]);
        } else if is_space(c) && c != '[' && c != ']' {
            lemma_remaining_nonneg(b, l2, c2);
            lemma_scan_progress(b, l2, c2);
        }
    }
}

/// The tokens that scanning a buffer finds from a position to its end;
/// none when it meets a character that starts no token.
pub open spec fn lex_all(b: Seq<Seq<u8>>, line: int, col: int) -> Option<Seq<Lexeme>>
    decreases remaining(b, line, col),
    via lex_all_decreases
{
    match scan(b, line, col) {
        Scan::Found(lx, l2, c2) => match lex_all(b, l2, c2) {
            Some(rest) => Some(seq![lx] + rest),
            None => None,
        },
        Scan::Invalid { .. } => None,
        Scan::Exhausted => Some(Seq::empty()),
    }
}

#[via_fn]
proof fn lex_all_decreases(b: Seq<Seq<u8>>, line: int, col: int) {
    lemma_scan_progress(b, line, col);
    if let Scan::Found(_, l2, c2) = scan(b, line, col) {
        lemma_remaining_nonneg(b, l2, c2);
    }
}

/// Whether a token request's result is the one that a scan found, with the
/// tokenizer left at `line` and `col`.
pub open spec fn scan_result(s: Scan, r: Result<Token, TokenizerError>, line: int, col: int) -> bool {
    match s {
        Scan::Found(lx, l, c) => r is Ok && r->Ok_0@ == lx && line == l && col == c,
        Scan::Invalid { ch, line: l0, col: c0, next_line, next_col } => {
            &&& r is Err
            &&& r->Err_0 is InvalidCharacter
            &&& r->Err_0->InvalidCharacter_ch == ch
            &&& r->Err_0->InvalidCharacter_line == l0
            &&& r->Err_0->InvalidCharacter_col == c0
            &&& line == next_line
            &&& col == next_col
        },
        Scan::Exhausted => false,
    }
}

/// The number of `[` bytes less the number of `]` bytes.
pub open spec fn bracket_balance(s: Seq<u8>) -> int
    decreases s.len(),
{
    if s.len() == 0 {
        0
    } else {
        bracket_balance(s.drop_last()) + if s.last() == 91 {
            1int
        } else if s.last() == 93 {
            -1int
        } else {
            0int
        }
    }
}

/// The bracket balance of all the lines together.
pub open spec fn lines_balance(b: Seq<Seq<u8>>) -> int
    decreases b.len(),
{
    if b.len() == 0 {
        0
    } else {
        lines_balance(b.drop_last()) + bracket_balance(b.last())
    }
}

/// How many bytes the lines hold together.
pub open spec fn total_bytes(b: Seq<Seq<u8>>) -> nat
    decreases b.len(),
{
    if b.len() == 0 {
        0
    } else {
        total_bytes(b.drop_last()) + b.last().len()
    }
}

proof fn lemma_total_bytes_prefix(b: Seq<Seq<u8>>, k: int)
    requires
        0 <= k <= b.len(),
    ensures
        total_bytes(b.take(k)) <= total_bytes(b),
    decreases b.len(),
{
    if k < b.len() {
        lemma_total_bytes_prefix(b.drop_last(), k);
        assert(b.drop_last().take(k) =~= b.take(k));
    } else {
        assert(b.take(k) =~= b);
    }
}

/// Tells whether the lines hold as many `]` as `[`, that is, whether an
/// expression that they start is complete.
pub fn is_complete_expr(lines: &Vec<String>) -> (r: bool)
    requires
        total_bytes(byte_lines(lines@)) <= usize::MAX,
    ensures
        r == (lines_balance(byte_lines(lines@)) == 0),
{
    let ghost b = byte_lines(lines@);
    let mut opens: usize = 0;
    let mut closes: usize = 0;
    let mut i: usize = 0;
    while i < lines.len()
        invariant
            b == byte_lines(lines@),
            total_bytes(b) <= usize::MAX,
            0 <= i <= lines@.len(),
            opens - closes == lines_balance(b.take(i as int)),
            opens + closes <= total_bytes(b.take(i as int)),
        decreases lines@.len() - i,
    {
        let bytes = lines[i].as_str().as_bytes();
        proof {
            assert(b.take(i as int + 1).drop_last() =~= b.take(i as int));
            lemma_total_bytes_prefix(b, i as int + 1);
        }
        let mut j: usize = 0;
        while j < bytes.len()
            invariant
                b == byte_lines(lines@),
                0 <= i < lines@.len(),
                bytes@ == b[i as int],
                0 <= j <= bytes@.len(),
                opens - closes == lines_balance(b.take(i as int)) + bracket_balance(bytes@.take(j as int)),
                opens + closes <= total_bytes(b.take(i as int)) + j,
                total_bytes(b.take(i as int)) + bytes@.len() <= usize::MAX,
            decreases bytes@.len() - j,
        {
            proof {
                assert(bytes@.take(j as int + 1).drop_last() =~= bytes@.take(j as int));
            }
            if bytes[j] == 91 {
                opens = opens + 1;
            } else if bytes[j] == 93 {
                closes = closes + 1;
            }
            j = j + 1;
        }
        proof {
            assert(bytes@.take(j as int) =~= bytes@);
            assert(b.take(i as int + 1).last() == b[i as int]);
        }
        i = i + 1;
    }
    proof {
        assert(b.take(i as int) =~= b);
    }
    opens == closes
}

/// A read that gave a buffer with nothing but whitespace in it.
pub open spec fn blank(x: Result<Seq<Seq<u8>>, WrappedError>) -> bool {
    x matches Ok(b) && scan(b, 0, 0) is Exhausted
}

/// What a token request that found the current buffer used up returns,
/// given the reads it made: it keeps reading past blank buffers; it fails
/// with the reader's error, or when no read is left; otherwise it scans the
/// last buffer read from its start.
pub open spec fn read_outcome(
    new: Seq<Result<Seq<Seq<u8>>, WrappedError>>,
    r: Result<Token, TokenizerError>,
    bytes: Seq<Seq<u8>>,
    line: int,
    col: int,
    reads_left: nat,
) -> bool {
    match r {
        Err(TokenizerError::OutOfReads) => reads_left == 0 && forall|i: int|
            0 <= i < new.len() ==> blank(#[trigger] new[i]),
        Err(TokenizerError::Read(e)) => {
            &&& new.len() > 0
            &&& new.last() == Err::<Seq<Seq<u8>>, WrappedError>(e)
            &&& forall|i: int| 0 <= i < new.len() - 1 ==> blank(#[trigger] new[i])
        },
        _ => {
            &&& new.len() > 0
            &&& new.last() == Ok::<Seq<Seq<u8>>, WrappedError>(bytes)
            &&& forall|i: int| 0 <= i < new.len() - 1 ==> blank(#[trigger] new[i])
            &&& scan_result(scan(bytes, 0, 0), r, line, col)
        },
    }
}

/// ExpressionReader supplies Nock text, one expression's lines at a time,
/// or an error when it has no more.
pub trait ExpressionReader {
    fn read(&mut self) -> Result<Vec<String>, WrappedError>;
}

/// How many times a tokenizer may call its reader.
pub const MAX_READS: u64 = 0xffff_ffff_ffff_ffff;

/// The lines of the current buffer and a position in them.
struct Buffer {
    curr: Vec<String>,
    line: usize,
    col: usize,
}

impl Buffer {
    #[verifier::type_invariant]
    spec fn inv(self) -> bool {
        valid_pos(byte_lines(self.curr@), self.line as int, self.col as int)
    }

    closed spec fn bytes(&self) -> Seq<Seq<u8>> {
        byte_lines(self.curr@)
    }

    closed spec fn line(&self) -> int {
        self.line as int
    }

    closed spec fn col(&self) -> int {
        self.col as int
    }

    closed spec fn left(&self) -> int {
        remaining(self.bytes(), self.line(), self.col())
    }

    /// Starts on a new buffer.
    fn replace(&mut self, lines: Vec<String>)
        ensures
            final(self).bytes() == byte_lines(lines@),
            final(self).line() == 0,
            final(self).col() == 0,
    {
        proof {
            use_type_invariant(&*self);
        }
        self.col = 0;
        self.line = 0;
        self.curr = lines;
    }

    fn is_exhausted(&self) -> (r: bool)
        ensures
            r == (self.line() >= self.bytes().len()),
    {
        self.line >= self.curr.len()
    }

    /// The character at the current position, with its line and column, and
    /// a step past it.
    fn get_next_char(&mut self) -> (r: Option<(char, usize, usize)>)
        ensures
            final(self).bytes() == old(self).bytes(),
            old(self).line() >= old(self).bytes().len() ==> r is None && final(self).line() == old(
                self,
            ).line() && final(self).col() == old(self).col(),
            old(self).line() < old(self).bytes().len() ==> {
                &&& r is Some
                &&& r->Some_0.0 == char_at(old(self).bytes(), old(self).line(), old(self).col())
                &&& r->Some_0.1 == old(self).line()
                &&& r->Some_0.2 == old(self).col()
                &&& (final(self).line(), final(self).col()) == next_pos(
                    old(self).bytes(),
                    old(self).line(),
                    old(self).col(),
                )
                &&& final(self).left() == old(self).left() - 1
            },
    {
        proof {
            use_type_invariant(&*self);
        }
        if self.line >= self.curr.len() {
            return None;
        }
        let line = self.line;
        let col = self.col;
        let n = self.curr[line].as_str().as_bytes().len();
        if col >= n {
            self.col = 0;
            self.line = line + 1;
            return Some(('\n', line, col));
        }
        let c = self.curr[line].as_str().as_bytes()[col] as char;
        self.col = col + 1;
        Some((c, line, col))
    }

    /// Steps back `len` characters on the current line.
    fn pushback(&mut self, len: usize)
        requires
            old(self).line() < old(self).bytes().len(),
            old(self).col() >= len,
        ensures
            final(self).bytes() == old(self).bytes(),
            final(self).line() == old(self).line(),
            final(self).col() == old(self).col() - len,
            final(self).left() == old(self).left() + len,
    {
        proof {
            use_type_invariant(&*self);
        }
        self.col = self.col - len;
    }
}

/// Tokenizer reads tokens from the lines that an ExpressionReader supplies.
pub struct Tokenizer<R: ExpressionReader> {
    buf: Buffer,
    reads_left: u64,
    reader: R,
    produced: Ghost<Seq<Lexeme>>,
    requests: Ghost<nat>,
    failure: Ghost<Option<TokenizerError>>,
    log: Ghost<Seq<Result<Seq<Seq<u8>>, WrappedError>>>,
}

impl<R: ExpressionReader> Tokenizer<R> {
    /// The bytes of the lines of the current buffer.
    pub closed spec fn bytes(&self) -> Seq<Seq<u8>> {
        self.buf.bytes()
    }

    pub closed spec fn line(&self) -> int {
        self.buf.line()
    }

    pub closed spec fn col(&self) -> int {
        self.buf.col()
    }

    /// The tokens handed out so far.
    pub closed spec fn history(&self) -> Seq<Lexeme> {
        self.produced@
    }

    pub closed spec fn reads_left(&self) -> nat {
        self.reads_left as nat
    }

    /// How many tokens have been asked for so far.
    pub closed spec fn requests(&self) -> nat {
        self.requests@
    }

    /// The error that the last request for a token returned, if it failed.
    pub closed spec fn failure(&self) -> Option<TokenizerError> {
        self.failure@
    }

    /// What each call of the reader returned so far: the bytes of the lines
    /// of a buffer, or the reader's error.
    pub closed spec fn reads(&self) -> Seq<Result<Seq<Seq<u8>>, WrappedError>> {
        self.log@
    }

    /// How many characters of the current buffer are left.
    pub open spec fn left(&self) -> int {
        remaining(self.bytes(), self.line(), self.col())
    }

    /// The tokens left in the current buffer; none when a character that
    /// starts no token lies ahead.
    pub open spec fn upcoming(&self) -> Option<Seq<Lexeme>> {
        lex_all(self.bytes(), self.line(), self.col())
    }

    /// What scanning the rest of the current buffer finds.
    pub open spec fn ahead(&self) -> Scan {
        scan(self.bytes(), self.line(), self.col())
    }

    /// new constructs a Tokenizer from an ExpressionReader.
    pub fn new(reader: R) -> (r: Self)
        ensures
            r.bytes() == Seq::<Seq<u8>>::empty(),
            r.line() == 0,
            r.col() == 0,
            r.history() == Seq::<Lexeme>::empty(),
            r.reads_left() == MAX_READS,
            r.requests() == 0,
            r.failure() is None,
            r.reads() == Seq::<Result<Seq<Seq<u8>>, WrappedError>>::empty(),
    {
        let t = Tokenizer {
            buf: Buffer { curr: Vec::new(), line: 0, col: 0 },
            reads_left: MAX_READS,
            reader: reader,
            produced: Ghost(Seq::empty()),
            requests: Ghost(0),
            failure: Ghost(None),
            log: Ghost(Seq::empty()),
        };
        assert(t.bytes() =~= Seq::<Seq<u8>>::empty());
        t
    }

    /// next returns the next token. When the current buffer holds only
    /// whitespace, it reads the next buffer first, as often as it takes.
    pub fn next(&mut self) -> (r: Result<Token, TokenizerError>)
        ensures
            old(self).reads().is_prefix_of(final(self).reads()),
            final(self).reads().len() - old(self).reads().len() == old(self).reads_left()
                - final(self).reads_left(),
            !(old(self).ahead() is Exhausted) ==> final(self).reads() == old(self).reads()
                && final(self).bytes() == old(self).bytes() && scan_result(
                old(self).ahead(),
                r,
                final(self).line(),
                final(self).col(),
            ),
            old(self).ahead() is Exhausted ==> read_outcome(
                final(self).reads().skip(old(self).reads().len() as int),
                r,
                final(self).bytes(),
                final(self).line(),
                final(self).col(),
                final(self).reads_left(),
            ),
            final(self).history() == (if r is Ok {
                old(self).history().push(r->Ok_0@)
            } else {
                old(self).history()
            }),
            r is Ok ==> final(self).reads_left() < old(self).reads_left() || final(self).left() < old(self).left(),
            final(self).left() >= 0,
            old(self).upcoming() is Some && old(self).upcoming()->Some_0.len() > 0 ==> {
                let ts = old(self).upcoming()->Some_0;
                &&& r is Ok
                &&& r->Ok_0@ == ts[0]
                &&& final(self).upcoming() == Some(ts.skip(1))
                &&& final(self).reads() == old(self).reads()
            },
            old(self).ahead() is Exhausted && final(self).reads().len() > old(self).reads().len()
                && !blank(final(self).reads()[old(self).reads().len() as int]) ==> {
                &&& final(self).reads().len() == old(self).reads().len() + 1
                &&& final(self).reads().last() is Ok && lex_all(final(self).reads().last()->Ok_0, 0, 0)
                    is Some ==> {
                    let ts = lex_all(final(self).reads().last()->Ok_0, 0, 0)->Some_0;
                    &&& r is Ok
                    &&& r->Ok_0@ == ts[0]
                    &&& final(self).upcoming() == Some(ts.skip(1))
                }
            },
            final(self).requests() == old(self).requests() + 1,
            final(self).failure() == (if r is Err {
                Some(r->Err_0)
            } else {
                None::<TokenizerError>
            }),
    {
        let ghost start = *self;
        let r = self.get_next_token();
        proof {
            let new = self.reads().skip(start.reads().len() as int);
            if start.ahead() is Exhausted && new.len() > 0 && !blank(new[0]) {
                assert(self.reads()[start.reads().len() as int] == new[0]);
                if !(r matches Err(TokenizerError::OutOfReads)) {
                    assert(new.len() == 1);
                    assert(new.last() == new[0]);
                }
                if self.reads().last() is Ok && lex_all(self.reads().last()->Ok_0, 0, 0) is Some {
                    let bs = self.reads().last()->Ok_0;
                    let ts = lex_all(bs, 0, 0)->Some_0;
                    assert(self.reads().last() == new.last());
                    if let Scan::Found(lx, l2, c2) = scan(bs, 0, 0) {
                        assert(ts == seq![lx] + lex_all(bs, l2, c2)->Some_0);
                        assert(ts.skip(1) =~= lex_all(bs, l2, c2)->Some_0);
                    }
                }
            }
            use_type_invariant(&self.buf);
            lemma_rest_len_nonneg(self.bytes(), self.line());
            lemma_rest_len_nonneg(self.bytes(), self.line() + 1);
        }
        if let Ok(t) = &r {
            self.produced = Ghost(self.produced@.push(t@));
        }
        self.requests = Ghost(self.requests@ + 1);
        self.failure = Ghost(
            match &r {
                Ok(_) => None,
                Err(e) => Some(*e),
            },
        );
        r
    }

    /// Reads the next buffer when the current one is used up.
    fn consume_reader(&mut self) -> (r: Result<(), TokenizerError>)
        ensures
            final(self).history() == old(self).history(),
            final(self).requests() == old(self).requests(),
            final(self).failure() == old(self).failure(),
            old(self).line() < old(self).bytes().len() ==> r is Ok && final(self).bytes() == old(self).bytes()
                && final(self).line() == old(self).line() && final(self).col() == old(self).col()
                && final(self).reads_left() == old(self).reads_left() && final(self).reads() == old(
                self,
            ).reads(),
            old(self).line() >= old(self).bytes().len() && old(self).reads_left() == 0 ==> {
                &&& r matches Err(TokenizerError::OutOfReads)
                &&& final(self).reads_left() == 0
                &&& final(self).reads() == old(self).reads()
                &&& final(self).line() >= final(self).bytes().len()
            },
            old(self).line() >= old(self).bytes().len() && old(self).reads_left() > 0 ==> {
                &&& final(self).reads_left() == old(self).reads_left() - 1
                &&& final(self).reads().len() == old(self).reads().len() + 1
                &&& final(self).reads().drop_last() == old(self).reads()
                &&& match r {
                    Ok(()) => final(self).reads().last() == Ok::<Seq<Seq<u8>>, WrappedError>(
                        final(self).bytes(),
                    ) && final(self).line() == 0 && final(self).col() == 0,
                    Err(TokenizerError::Read(e)) => final(self).reads().last() == Err::<
                        Seq<Seq<u8>>,
                        WrappedError,
                    >(e) && final(self).line() >= final(self).bytes().len(),
                    Err(_) => false,
                }
            },
    {
        if !self.buf.is_exhausted() {
            return Ok(());
        }
        if self.reads_left == 0 {
            return Err(TokenizerError::OutOfReads);
        }
        self.reads_left = self.reads_left - 1;
        match self.reader.read() {
            Ok(lines) => {
                self.log = Ghost(self.log@.push(Ok(byte_lines(lines@))));
                self.buf.replace(lines);
                Ok(())
            },
            Err(e) => {
                self.log = Ghost(self.log@.push(Err(e)));
                Err(TokenizerError::Read(e))
            },
        }
    }

    /// Reads a digit run whose first character, a digit or a dot, was `c`
    /// at `line` and `col`. Every dot of the run, the first one included, is
    /// dropped, so the token holds digits only.
    fn gobble_atom(&mut self, c: char, line: usize, col: usize) -> (r: Token)
        requires
            old(self).line() < old(self).bytes().len(),
            is_digit(c) || c == '.',
        ensures
            forall|i: int| 0 <= i < r@.text.len() ==> is_digit(#[trigger] r@.text[i]),
            final(self).bytes() == old(self).bytes(),
            final(self).history() == old(self).history(),
            final(self).reads_left() == old(self).reads_left(),
            (r@.text, final(self).line(), final(self).col()) == gobble(
                old(self).bytes(),
                old(self).line(),
                old(self).col(),
                run_start(c),
            ),
            r@.line == line,
            r@.col == col,
            final(self).left() <= old(self).left(),
            final(self).reads() == old(self).reads(),
            final(self).requests() == old(self).requests(),
            final(self).failure() == old(self).failure(),
    {
        proof {
            use_type_invariant(&self.buf);
        }
        let mut tok = if c == '.' {
            Token::empty_run(line, col)
        } else {
            Token::new(c, line, col)
        };
        let ghost b = self.bytes();
        let ghost start = gobble(b, self.line(), self.col(), tok@.text);
        let ghost left0 = self.left();
        loop
            invariant
                self.bytes() == b,
                b == old(self).bytes(),
                self.reads() == old(self).reads(),
                self.requests() == old(self).requests(),
                self.failure() == old(self).failure(),
                start == gobble(old(self).bytes(), old(self).line(), old(self).col(), run_start(c)),
                forall|i: int| 0 <= i < tok@.text.len() ==> is_digit(#[trigger] tok@.text[i]),
                left0 == old(self).left(),
                self.history() == old(self).history(),
                self.reads_left() == old(self).reads_left(),
                0 <= self.line() < b.len(),
                0 <= self.col() <= b[self.line()].len(),
                gobble(b, self.line(), self.col(), tok@.text) == start,
                tok@.line == line,
                tok@.col == col,
                self.left() <= left0,
            decreases self.left(),
        {
            proof {
                use_type_invariant(&self.buf);
                lemma_rest_len_nonneg(b, self.line() + 1);
            }
            let (next, _, _) = match self.buf.get_next_char() {
                Some(t) => t,
                None => return tok,
            };
            if next == ' ' || next == '\t' || next == '\r' || next == '\n' {
                return tok;
            }
            if next == '.' {
                continue;
            }
            if !('0' <= next && next <= '9') {
                self.buf.pushback(1);
                return tok;
            }
            let ghost before = tok@.text;
            tok.append_char(next);
            assert(tok@.text == before.push(next));
        }
    }

    /// Skips whitespace, reading new buffers as needed, and reads one token.
    fn get_next_token(&mut self) -> (r: Result<Token, TokenizerError>)
        ensures
            old(self).reads().is_prefix_of(final(self).reads()),
            final(self).reads().len() - old(self).reads().len() == old(self).reads_left()
                - final(self).reads_left(),
            !(old(self).ahead() is Exhausted) ==> final(self).reads() == old(self).reads()
                && final(self).bytes() == old(self).bytes() && scan_result(
                old(self).ahead(),
                r,
                final(self).line(),
                final(self).col(),
            ),
            old(self).ahead() is Exhausted ==> read_outcome(
                final(self).reads().skip(old(self).reads().len() as int),
                r,
                final(self).bytes(),
                final(self).line(),
                final(self).col(),
                final(self).reads_left(),
            ),
            final(self).history() == old(self).history(),
            r is Ok ==> final(self).reads_left() < old(self).reads_left() || final(self).left() < old(self).left(),
            final(self).requests() == old(self).requests(),
            final(self).failure() == old(self).failure(),
    {
        let ghost s0 = self.ahead();
        let ghost b0 = self.bytes();
        let ghost left0 = self.left();
        let ghost reads0 = self.reads_left();
        let ghost log0 = self.reads();
        let ghost mut fresh = false;
        loop
            invariant
                self.history() == old(self).history(),
                self.requests() == old(self).requests(),
                self.failure() == old(self).failure(),
                self.reads_left() <= reads0,
                reads0 == old(self).reads_left(),
                s0 == old(self).ahead(),
                b0 == old(self).bytes(),
                left0 == old(self).left(),
                log0 == old(self).reads(),
                log0.is_prefix_of(self.reads()),
                self.reads().len() - log0.len() == reads0 - self.reads_left(),
                !fresh ==> self.bytes() == b0 && self.ahead() == s0 && self.reads_left() == reads0
                    && self.left() <= left0 && self.reads() == log0,
                fresh ==> {
                    let new = self.reads().skip(log0.len() as int);
                    &&& s0 is Exhausted
                    &&& self.reads_left() < reads0
                    &&& self.ahead() == scan(self.bytes(), 0, 0)
                    &&& new.len() > 0
                    &&& new.last() == Ok::<Seq<Seq<u8>>, WrappedError>(self.bytes())
                    &&& forall|i: int| 0 <= i < new.len() - 1 ==> blank(#[trigger] new[i])
                },
            decreases self.reads_left(), self.left(),
        {
            proof {
                use_type_invariant(&self.buf);
                lemma_rest_len_nonneg(self.bytes(), self.line());
                lemma_rest_len_nonneg(self.bytes(), self.line() + 1);
            }
            if self.buf.is_exhausted() {
                let ghost before = self.reads().skip(log0.len() as int);
                proof {
                    if fresh {
                        assert(blank(before.last()));
                    }
                    assert(forall|i: int| 0 <= i < before.len() ==> blank(#[trigger] before[i])) by {
                        assert forall|i: int| 0 <= i < before.len() implies blank(
                            #[trigger] before[i],
                        ) by {
                            if i < before.len() - 1 {
                            } else {
                                assert(fresh);
                            }
                        }
                    }
                }
                let ghost reads_before = self.reads();
                match self.consume_reader() {
                    Ok(()) => {
                        proof {
                            let new = self.reads().skip(log0.len() as int);
                            assert(self.reads() =~= reads_before.push(self.reads().last()));
                            assert(new =~= before.push(self.reads().last()));
                            fresh = true;
                        }
                        continue;
                    },
                    Err(e) => {
                        proof {
                            if self.reads().len() > reads_before.len() {
                                let new = self.reads().skip(log0.len() as int);
                                assert(self.reads() =~= reads_before.push(self.reads().last()));
                                assert(new =~= before.push(self.reads().last()));
                            }
                        }
                        return Err(e);
                    },
                }
            }
            let (c, line, col) = match self.buf.get_next_char() {
                Some(t) => t,
                None => return Err(TokenizerError::OutOfReads),
            };
            if c == '[' || c == ']' {
                return Ok(Token::new(c, line, col));
            }
            if ('0' <= c && c <= '9') || c == '.' {
                return Ok(self.gobble_atom(c, line, col));
            }
            if c == ' ' || c == '\t' || c == '\r' || c == '\n' {
                continue;
            }
            return Err(TokenizerError::InvalidCharacter { ch: c, line: line, col: col });
        }
    }
}

} // verus!
