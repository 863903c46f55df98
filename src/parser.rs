//! Nouns and the parser that builds them from Nock text.
use vstd::prelude::*;

use crate::errors::WrappedError;
use crate::tokenizer::{
    blank, lex_all, scan,
    is_atom_text, is_digit, ExpressionReader, Lexeme, Token, Tokenizer, TokenizerError,
};

verus! {

/// The mathematical model of a noun: an atom, or a cell holding the ordered
/// sequence of its elements.
pub enum Tree {
    Atom(u64),
    Cell(Seq<Tree>),
}

/// The autocons rule on a candidate element list: while the last element is
/// a cell, its elements take its place. (An empty cell, which no valid noun
/// holds, is dropped.)
pub open spec fn flatten_seq(s: Seq<Tree>) -> Seq<Tree>
    decreases s.last(),
    via flatten_seq_decreases
{
    if s.len() >= 1 && s.last() is Cell {
        let l = s.last()->Cell_0;
        if l.len() == 0 {
            s.drop_last()
        } else {
            flatten_seq(s.drop_last() + l)
        }
    } else {
        s
    }
}

#[via_fn]
proof fn flatten_seq_decreases(s: Seq<Tree>) {
    if s.len() >= 1 && s.last() is Cell {
        let l = s.last()->Cell_0;
        if l.len() > 0 {
            assert(decreases_to!(s.last() => s.last()->Cell_0));
            assert(decreases_to!(l => l[l.len() - 1]));
            assert((s.drop_last() + l).last() == l[l.len() - 1]);
        }
    }
}

/// The models of a sequence of nouns.
pub open spec fn views(s: Seq<Noun>) -> Seq<Tree> {
    Seq::new(s.len(), |i: int| s[i]@)
}

pub broadcast proof fn lemma_views_empty()
    ensures
        #[trigger] views(Seq::<Noun>::empty()) == Seq::<Tree>::empty(),
{
    assert(views(Seq::<Noun>::empty()) =~= Seq::<Tree>::empty());
}

pub broadcast proof fn lemma_views_push(s: Seq<Noun>, n: Noun)
    ensures
        #[trigger] views(s.push(n)) == views(s).push(n@),
{
    assert(views(s.push(n)) =~= views(s).push(n@));
}

/// The models of the elements of each open cell.
pub open spec fn frames(s: Seq<Vec<Noun>>) -> Seq<Seq<Tree>> {
    Seq::new(s.len(), |i: int| views(s[i]@))
}

/// A Noun is an Atom or a Cell.
#[derive(Debug, PartialEq)]
pub enum Noun {
    Atom(u64),
    Cell(Vec<Noun>),
}

/// Why a noun could not be parsed, or taken apart.
#[derive(Debug, PartialEq)]
pub enum ParseError {
    /// An atom, or an empty cell, has no head.
    NoHead,
    /// An atom, or a cell of fewer than two elements, has no tail.
    NoTail,
    /// A token that cannot stand where it was found.
    UnhandledToken { line: usize, col: usize },
    /// A digit run that is not a 64-bit unsigned integer.
    BadAtom { line: usize, col: usize },
    /// A cell closed with fewer than two elements.
    ShortCell { line: usize, col: usize },
    /// The tokenizer failed.
    Tokenizer(TokenizerError),
}

impl ParseError {
    /// The human-readable message of this error, without its cause.
    pub open spec fn spec_message(&self) -> Seq<char> {
        match self {
            ParseError::NoHead => "atoms and empty cells have no head"@,
            ParseError::NoTail => "atoms and cells of fewer than two nouns have no tail"@,
            ParseError::UnhandledToken { .. } => "unhandled token"@,
            ParseError::BadAtom { .. } => "not an atom: no digits, or too large for 64 bits"@,
            ParseError::ShortCell { .. } => "a cell needs two elements or more"@,
            ParseError::Tokenizer(_) => "tokenizer error"@,
        }
    }

    /// The human-readable message of this error, without its cause.
    pub fn message(&self) -> (r: &'static str)
        ensures
            r@ == self.spec_message(),
    {
        match self {
            ParseError::NoHead => "atoms and empty cells have no head",
            ParseError::NoTail => "atoms and cells of fewer than two nouns have no tail",
            ParseError::UnhandledToken { .. } => "unhandled token",
            ParseError::BadAtom { .. } => "not an atom: no digits, or too large for 64 bits",
            ParseError::ShortCell { .. } => "a cell needs two elements or more",
            ParseError::Tokenizer(_) => "tokenizer error",
        }
    }
}

impl Noun {
    pub open spec fn view(self) -> Tree
        decreases self,
    {
        match self {
            Noun::Atom(a) => Tree::Atom(a),
            Noun::Cell(v) => Tree::Cell(
                Seq::new(
                    v.len() as nat,
                    |i: int|
                        if 0 <= i < v.len() {
                            v@[i].view()
                        } else {
                            Tree::Atom(0)
                        },
                ),
            ),
        }
    }

    /// The model of a cell is the sequence of the models of its elements.
    pub proof fn lemma_cell_view(v: Vec<Noun>)
        ensures
            Noun::Cell(v)@ == Tree::Cell(views(v@)),
    {
        assert(views(v@) =~= Noun::Cell(v)@->Cell_0);
    }

    /// Makes an independent copy of this noun.
    pub fn duplicate(&self) -> (r: Noun)
        ensures
            r@ == self@,
        decreases self,
    {
        match self {
            Noun::Atom(a) => Noun::Atom(*a),
            Noun::Cell(v) => {
                let mut out: Vec<Noun> = Vec::new();
                for i in 0..v.len()
                    invariant
                        *self == Noun::Cell(*v),
                        views(out@) =~= views(v@).take(i as int),
                {
                    proof {
                        assert(decreases_to!(*self => (*self)->Cell_0));
                        assert(decreases_to!(*self => v[i as int]));
                    }
                    let n = v[i].duplicate();
                    let ghost prev = out@;
                    out.push(n);
                    assert(n@ == v@[i as int]@);
                    assert(views(out@) =~= views(prev).push(n@));
                    assert(views(out@) =~= views(v@).take(i as int + 1));
                }
                proof {
                    Noun::lemma_cell_view(*v);
                    Noun::lemma_cell_view(out);
                    assert(views(out@) =~= views(v@));
                }
                Noun::Cell(out)
            },
        }
    }

    /// flatten applies autocons to a candidate element list: `[0 [1 [2 3]]]`
    /// becomes `[0 1 2 3]`, while `[0 [1 2] 3]` stays as it is.
    pub fn flatten(items: Vec<Noun>) -> (r: Vec<Noun>)
        ensures
            views(r@) == flatten_seq(views(items@)),
    {
        let mut nouns = items;
        loop
            invariant
                flatten_seq(views(nouns@)) == flatten_seq(views(items@)),
            decreases (if nouns@.len() > 0 {
                views(nouns@).last()
            } else {
                Tree::Atom(0)
            }),
        {
            if nouns.len() == 0 {
                assert(flatten_seq(views(nouns@)) == views(nouns@));
                return nouns;
            }
            let ghost current = views(nouns@);
            let last = nouns.pop().unwrap();
            proof {
                assert(views(nouns@) =~= current.drop_last());
                assert(current.last() == last@);
            }
            match last {
                Noun::Cell(list) => {
                    proof {
                        Noun::lemma_cell_view(list);
                    }
                    if list.len() == 0 {
                        assert(flatten_seq(current) == current.drop_last());
                        return nouns;
                    }
                    let ghost before = nouns@;
                    let ghost moved = list;
                    let mut list = list;
                    nouns.append(&mut list);
                    proof {
                        assert(views(nouns@) =~= views(before) + views(moved@));
                        let l = views(moved@);
                        assert(decreases_to!(current.last() => current.last()->Cell_0));
                        assert(decreases_to!(l => l[l.len() - 1]));
                        assert(views(nouns@).last() == l[l.len() - 1]);
                    }
                },
                Noun::Atom(a) => {
                    nouns.push(Noun::Atom(a));
                    proof {
                        assert(views(nouns@) =~= current);
                    }
                    return nouns;
                },
            }
        }
    }
}

impl Noun {
    /// head returns the first element of a cell.
    pub fn head(&self) -> (r: Result<&Noun, ParseError>)
        ensures
            match r {
                Ok(h) => self@ is Cell && self@->Cell_0.len() > 0 && h@ == self@->Cell_0[0],
                Err(e) => e == ParseError::NoHead && !(self@ is Cell && self@->Cell_0.len() > 0),
            },
    {
        if let Noun::Cell(list) = self {
            if list.len() > 0 {
                return Ok(&list[0]);
            }
        }
        Err(ParseError::NoHead)
    }

    /// tail returns the elements of a cell after the first one, when there
    /// is at least one.
    pub fn tail(&self) -> (r: Result<&[Noun], ParseError>)
        ensures
            match r {
                Ok(t) => self@ is Cell && self@->Cell_0.len() > 1 && views(t@) == self@->Cell_0.skip(1),
                Err(e) => e == ParseError::NoTail && !(self@ is Cell && self@->Cell_0.len() > 1),
            },
    {
        if let Noun::Cell(list) = self {
            if list.len() > 1 {
                let t = vstd::slice::slice_subrange(list.as_slice(), 1, list.len());
                proof {
                    Noun::lemma_cell_view(*list);
                    assert(views(t@) =~= self@->Cell_0.skip(1));
                }
                return Ok(t);
            }
        }
        Err(ParseError::NoTail)
    }
}

/// atom constructs a Noun::Atom.
pub fn atom(a: u64) -> (r: Noun)
    ensures
        r@ == Tree::Atom(a),
{
    Noun::Atom(a)
}

pub open spec fn all_digits(v: Seq<char>) -> bool {
    forall|i: int| 0 <= i < v.len() ==> is_digit(#[trigger] v[i])
}

/// The number that a run of decimal digits writes.
pub open spec fn decimal(v: Seq<char>) -> nat
    decreases v.len(),
{
    if v.len() == 0 {
        0
    } else {
        decimal(v.drop_last()) * 10 + (v.last() as nat - '0' as nat) as nat
    }
}

/// The atom that a digit-run token stands for; an empty run, or one too
/// large for 64 bits, is an error.
pub open spec fn atom_of(lx: Lexeme) -> Result<Tree, ParseError> {
    if lx.text.len() > 0 && all_digits(lx.text) && decimal(lx.text) <= u64::MAX {
        Ok(Tree::Atom(decimal(lx.text) as u64))
    } else {
        Err(ParseError::BadAtom { line: lx.line as usize, col: lx.col as usize })
    }
}

/// Where a parse stands after some tokens.
pub enum Progress {
    /// Inside the cells still open, outermost first, with the elements read
    /// so far of each.
    Partial(Seq<Seq<Tree>>),
    /// A whole noun has been read.
    Done(Tree),
    /// The tokens do not make a noun.
    Failed(ParseError),
}

/// Adds a finished noun to the innermost open cell, or ends the parse with
/// it when no cell is open.
pub open spec fn add_element(open: Seq<Seq<Tree>>, n: Tree) -> Progress {
    if open.len() == 0 {
        Progress::Done(n)
    } else {
        Progress::Partial(open.drop_last().push(open.last().push(n)))
    }
}

/// One token's effect on a parse. A digit run is an atom, `[` opens a cell,
/// and `]` closes the innermost one, which must hold two elements or more
/// and is autoconsed.
pub open spec fn step(st: Progress, lx: Lexeme) -> Progress {
    match st {
        Progress::Partial(open) => {
            let unhandled = ParseError::UnhandledToken { line: lx.line as usize, col: lx.col as usize };
            if is_atom_text(lx.text) {
                match atom_of(lx) {
                    Ok(n) => add_element(open, n),
                    Err(e) => Progress::Failed(e),
                }
            } else if lx.text == seq!['['] {
                Progress::Partial(open.push(Seq::empty()))
            } else if lx.text == seq![']'] {
                if open.len() == 0 || open.last().len() == 0 {
                    Progress::Failed(unhandled)
                } else if open.last().len() == 1 {
                    Progress::Failed(
                        ParseError::ShortCell { line: lx.line as usize, col: lx.col as usize },
                    )
                } else {
                    add_element(open.drop_last(), Tree::Cell(flatten_seq(open.last())))
                }
            } else {
                Progress::Failed(unhandled)
            }
        },
        _ => st,
    }
}

/// Where a parse stands after `toks`, from `st`.
pub open spec fn run_from(st: Progress, toks: Seq<Lexeme>) -> Progress
    decreases toks.len(),
{
    if toks.len() == 0 {
        st
    } else {
        step(run_from(st, toks.drop_last()), toks.last())
    }
}

/// Where a parse stands after `toks`, from the start.
pub open spec fn run(toks: Seq<Lexeme>) -> Progress {
    run_from(Progress::Partial(Seq::empty()), toks)
}

/// What `parse` returns, given the tokens it consumed: a noun exactly when
/// the last of them completes one, a tokenizer error only while the noun is
/// incomplete, and any other error exactly at the token that breaks it.
pub open spec fn parse_result(st: Progress, toks: Seq<Lexeme>, r: Result<Noun, ParseError>) -> bool {
    match r {
        Ok(n) => toks.len() > 0 && run_from(st, toks) == Progress::Done(n@) && run_from(
            st,
            toks.drop_last(),
        ) is Partial,
        Err(ParseError::Tokenizer(_)) => run_from(st, toks) is Partial,
        Err(e) => toks.len() > 0 && run_from(st, toks) == Progress::Failed(e) && run_from(
            st,
            toks.drop_last(),
        ) is Partial,
    }
}

pub proof fn lemma_run_from_first(st: Progress, t: Lexeme, rest: Seq<Lexeme>)
    ensures
        run_from(st, seq![t] + rest) == run_from(step(st, t), rest),
    decreases rest.len(),
{
    let all = seq![t] + rest;
    if rest.len() == 0 {
        assert(all.drop_last() =~= Seq::<Lexeme>::empty());
        assert(run_from(st, all.drop_last()) == st);
        assert(all.last() == t);
    } else {
        lemma_run_from_first(st, t, rest.drop_last());
        assert(all.drop_last() =~= seq![t] + rest.drop_last());
        assert(all.last() == rest.last());
    }
}

/// Once a parse is done or has failed, further tokens change nothing.
pub proof fn lemma_run_settled(st: Progress, x: Seq<Lexeme>, y: Seq<Lexeme>)
    requires
        run_from(st, x) is Done || run_from(st, x) is Failed,
    ensures
        run_from(st, x + y) == run_from(st, x),
    decreases y.len(),
{
    if y.len() == 0 {
        assert(x + y =~= x);
    } else {
        lemma_run_settled(st, x, y.drop_last());
        assert((x + y).drop_last() =~= x + y.drop_last());
    }
}

proof fn lemma_decimal_prefix(v: Seq<char>, k: int)
    requires
        0 <= k <= v.len(),
    ensures
        decimal(v.take(k)) <= decimal(v),
    decreases v.len(),
{
    if k < v.len() {
        lemma_decimal_prefix(v.drop_last(), k);
        assert(v.drop_last().take(k) =~= v.take(k));
    } else {
        assert(v.take(k) =~= v);
    }
}

pub open spec fn digit_char(d: nat) -> char {
    ((d + 48) as u8) as char
}

/// The decimal digits of a number.
pub open spec fn decimal_text(n: nat) -> Seq<char>
    decreases n,
{
    if n < 10 {
        seq![digit_char(n)]
    } else {
        decimal_text(n / 10).push(digit_char(n % 10))
    }
}

/// The text of a noun: an atom in decimal, a cell as its elements between
/// brackets, separated by single spaces.
pub open spec fn render_tree(t: Tree) -> Seq<char>
    decreases t,
{
    match t {
        Tree::Atom(a) => decimal_text(a as nat),
        Tree::Cell(l) => seq!['['] + render_seq(l) + seq![']'],
    }
}

/// The texts of nouns, separated by single spaces.
pub open spec fn render_seq(l: Seq<Tree>) -> Seq<char>
    decreases l,
{
    if l.len() == 0 {
        Seq::empty()
    } else if l.len() == 1 {
        render_tree(l[0])
    } else {
        render_seq(l.drop_last()) + seq![' '] + render_tree(l.last())
    }
}

fn push_decimal(n: u64, out: &mut String)
    ensures
        final(out)@ == old(out)@ + decimal_text(n as nat),
    decreases n,
{
    if n >= 10 {
        push_decimal(n / 10, out);
    }
    let d = (n % 10) as u8;
    out.push((d + 48) as char);
}

impl Noun {
    fn render_into(&self, out: &mut String)
        ensures
            final(out)@ == old(out)@ + render_tree(self@),
        decreases self,
    {
        match self {
            Noun::Atom(a) => push_decimal(*a, out),
            Noun::Cell(list) => {
                proof {
                    Noun::lemma_cell_view(*list);
                }
                let ghost start = out@;
                let ghost l = views(list@);
                out.push('[');
                let mut i: usize = 0;
                while i < list.len()
                    invariant
                        *self == Noun::Cell(*list),
                        l == views(list@),
                        0 <= i <= list@.len(),
                        out@ == start + seq!['['] + render_seq(l.take(i as int)),
                    decreases list@.len() - i,
                {
                    proof {
                        assert(decreases_to!(*self => (*self)->Cell_0));
                        assert(decreases_to!(*self => list[i as int]));
                        assert(l.take(i as int + 1).drop_last() =~= l.take(i as int));
                    }
                    if i > 0 {
                        out.push(' ');
                    }
                    list[i].render_into(out);
                    i = i + 1;
                }
                out.push(']');
                assert(l.take(i as int) =~= l);
            },
        }
    }

    /// render writes the noun as text: an atom in decimal, a cell as its
    /// elements between brackets, separated by single spaces.
    pub fn render(&self) -> (r: String)
        ensures
            r@ == render_tree(self@),
    {
        let mut out = String::new();
        self.render_into(&mut out);
        assert(out@ =~= render_tree(self@));
        out
    }
}

/// The tokens a parse works on, when they are known: those left in the
/// buffer, when there are some; otherwise, when the buffer was used up, those
/// of the first buffer that the parse read, when it is not blank and holds
/// no character that starts no token.
pub open spec fn source(
    upcoming: Option<Seq<Lexeme>>,
    used_up: bool,
    before: Seq<Result<Seq<Seq<u8>>, WrappedError>>,
    after: Seq<Result<Seq<Seq<u8>>, WrappedError>>,
) -> Option<Seq<Lexeme>> {
    let x = after[before.len() as int];
    if upcoming is Some && upcoming->Some_0.len() > 0 {
        upcoming
    } else if used_up && after.len() > before.len() && before.is_prefix_of(after) && x is Ok
        && !blank(x) && lex_all(x->Ok_0, 0, 0) is Some {
        lex_all(x->Ok_0, 0, 0)
    } else {
        None
    }
}

/// Parser parses the tokens of a Tokenizer into nouns.
pub struct Parser<R: ExpressionReader> {
    toker: Tokenizer<R>,
}

impl<R: ExpressionReader> Parser<R> {
    /// The tokens consumed so far.
    pub closed spec fn history(&self) -> Seq<Lexeme> {
        self.toker.history()
    }

    /// How many tokens have been asked for so far.
    pub closed spec fn requests(&self) -> nat {
        self.toker.requests()
    }

    /// What each call of the reader returned so far.
    pub closed spec fn reads(&self) -> Seq<Result<Seq<Seq<u8>>, WrappedError>> {
        self.toker.reads()
    }

    /// The tokens left in the current buffer; none when a character that
    /// starts no token lies ahead.
    pub closed spec fn upcoming(&self) -> Option<Seq<Lexeme>> {
        self.toker.upcoming()
    }

    /// Whether the current buffer holds nothing but whitespace from here on.
    pub closed spec fn used_up(&self) -> bool {
        self.toker.ahead() is Exhausted
    }

    /// The error that the last request for a token returned, if it failed.
    pub closed spec fn failure(&self) -> Option<TokenizerError> {
        self.toker.failure()
    }

    /// Constructs a parser over the text that `reader` supplies.
    pub fn new(reader: R) -> (r: Self)
        ensures
            r.history() == Seq::<Lexeme>::empty(),
            r.requests() == 0,
            r.reads() == Seq::<Result<Seq<Seq<u8>>, WrappedError>>::empty(),
            r.used_up(),
            r.upcoming() == Some(Seq::<Lexeme>::empty()),
    {
        let p = Parser { toker: Tokenizer::new(reader) };
        assert(scan(p.toker.bytes(), 0, 0) is Exhausted);
        assert(lex_all(p.toker.bytes(), 0, 0) == Some(Seq::<Lexeme>::empty()));
        p
    }

    fn parse_atom(tok: &Token) -> (r: Result<Noun, ParseError>)
        ensures
            match r {
                Ok(n) => atom_of(tok@) == Ok::<Tree, ParseError>(n@),
                Err(e) => atom_of(tok@) == Err::<Tree, ParseError>(e),
            },
    {
        let s = tok.val.as_str();
        let n = s.unicode_len();
        if n == 0 {
            return Err(ParseError::BadAtom { line: tok.line, col: tok.col });
        }
        let mut v: u64 = 0;
        let mut i: usize = 0;
        while i < n
            invariant
                0 <= i <= n,
                n == s@.len(),
                s@ == tok@.text,
                all_digits(s@.take(i as int)),
                v == decimal(s@.take(i as int)),
            decreases n - i,
        {
            let c = s.get_char(i);
            if !('0' <= c && c <= '9') {
                assert(!is_digit(s@[i as int]));
                return Err(ParseError::BadAtom { line: tok.line, col: tok.col });
            }
            let d = (c as u32 - '0' as u32) as u64;
            let ghost next = s@.take(i as int + 1);
            proof {
                assert(next.drop_last() =~= s@.take(i as int));
                assert(next.last() == c);
                assert(decimal(next) == v * 10 + d);
            }
            if v > (u64::MAX - d) / 10 {
                proof {
                    assert(v * 10 + d > u64::MAX) by (nonlinear_arith)
                        requires
                            v > (u64::MAX - d) / 10,
                            d <= 9,
                    ;
                    if all_digits(s@) {
                        lemma_decimal_prefix(s@, i as int + 1);
                    }
                }
                return Err(ParseError::BadAtom { line: tok.line, col: tok.col });
            }
            assert(v * 10 + d <= u64::MAX) by (nonlinear_arith)
                requires
                    v <= (u64::MAX - d) / 10,
                    d <= 9,
            ;
            v = v * 10 + d;
            i = i + 1;
            assert(all_digits(s@.take(i as int)));
        }
        assert(s@.take(n as int) =~= s@);
        Ok(Noun::Atom(v))
    }

    /// Parses the rest of a cell whose `[` has been consumed.
    fn parse_cell(&mut self) -> (r: Result<Noun, ParseError>)
        ensures
            old(self).history().is_prefix_of(final(self).history()),
            parse_result(
                Progress::Partial(seq![Seq::<Tree>::empty()]),
                final(self).history().skip(old(self).history().len() as int),
                r,
            ),
            final(self).requests() >= old(self).requests(),
            r matches Err(ParseError::Tokenizer(e)) ==> final(self).requests() > old(self).requests()
                && final(self).failure() == Some(e),
            old(self).reads().is_prefix_of(final(self).reads()),
            old(self).upcoming() is Some && run_from(
                Progress::Partial(seq![Seq::<Tree>::empty()]),
                old(self).upcoming()->Some_0,
            ) is Done ==> final(self).reads() == old(self).reads() && r is Ok && run_from(
                Progress::Partial(seq![Seq::<Tree>::empty()]),
                old(self).upcoming()->Some_0,
            ) == Progress::Done(r->Ok_0@) && final(self).upcoming() == Some(
                old(self).upcoming()->Some_0.skip(
                    final(self).history().len() - old(self).history().len(),
                ),
            ),
            old(self).upcoming() is Some && run_from(
                Progress::Partial(seq![Seq::<Tree>::empty()]),
                old(self).upcoming()->Some_0,
            ) is Done ==> final(self).history().len() - old(self).history().len()
                <= old(self).upcoming()->Some_0.len(),
            old(self).upcoming() is Some && run_from(
                Progress::Partial(seq![Seq::<Tree>::empty()]),
                old(self).upcoming()->Some_0,
            ) is Failed ==> final(self).reads() == old(self).reads() && r == Err::<Noun, ParseError>(
                run_from(
                    Progress::Partial(seq![Seq::<Tree>::empty()]),
                    old(self).upcoming()->Some_0,
                )->Failed_0,
            ),
            old(self).upcoming() is Some && run_from(
                Progress::Partial(seq![Seq::<Tree>::empty()]),
                old(self).upcoming()->Some_0,
            ) is Partial && final(self).reads().len() > old(self).reads().len()
                && final(self).reads()[old(self).reads().len() as int] is Err ==> r == Err::<
                Noun,
                ParseError,
            >(
                ParseError::Tokenizer(
                    TokenizerError::Read(final(self).reads()[old(self).reads().len() as int]->Err_0),
                ),
            ),
    {
        broadcast use {lemma_views_empty, lemma_views_push};

        let ghost start = Progress::Partial(seq![Seq::<Tree>::empty()]);
        let ghost h0 = self.toker.history();
        let ghost reads0 = self.toker.reads();
        let ghost all = if self.toker.upcoming() is Some {
            self.toker.upcoming()->Some_0
        } else {
            Seq::<Lexeme>::empty()
        };
        let ghost mut track = self.toker.upcoming() is Some;
        let ghost mut ended = reads0;
        let ghost mut consumed = Seq::<Lexeme>::empty();
        let mut open: Vec<Vec<Noun>> = Vec::new();
        open.push(Vec::new());
        proof {
            assert(frames(open@) =~= seq![Seq::<Tree>::empty()]);
            assert(self.toker.history() =~= h0 + consumed);
        }
        loop
            invariant
                h0 == old(self).history(),
                self.toker.requests() >= old(self).toker.requests(),
                start == Progress::Partial(seq![Seq::<Tree>::empty()]),
                self.toker.history() == h0 + consumed,
                open@.len() > 0,
                run_from(start, consumed) == Progress::Partial(frames(open@)),
                reads0 == old(self).toker.reads(),
                reads0.is_prefix_of(self.toker.reads()),
                track ==> old(self).toker.upcoming() is Some,
                !track && old(self).toker.upcoming() is Some ==> {
                    &&& run_from(start, all) is Partial
                    &&& ended.is_prefix_of(self.toker.reads())
                    &&& ended.len() > reads0.len()
                    &&& ended[reads0.len() as int] is Ok
                },
                old(self).toker.upcoming() is Some ==> all == old(self).toker.upcoming()->Some_0,
                track ==> self.toker.reads() == reads0 && self.toker.upcoming() is Some && consumed
                    + self.toker.upcoming()->Some_0 == all,
            decreases self.toker.reads_left(), self.toker.left(),
        {
            let ghost before = consumed;
            let ghost f0 = frames(open@);
            let ghost rest_before = if track {
                self.toker.upcoming()->Some_0
            } else {
                Seq::<Lexeme>::empty()
            };
            let ghost switch = track && rest_before.len() == 0;
            let ghost mid = self.toker;
            proof {
                if switch {
                    assert(consumed =~= all);
                    assert(lex_all(mid.bytes(), mid.line(), mid.col()) == Some(Seq::<Lexeme>::empty()));
                    assert(mid.ahead() is Exhausted);
                }
            }
            let tok = match self.toker.next() {
                Ok(t) => t,
                Err(e) => {
                    proof {
                        assert(self.toker.history().skip(h0.len() as int) =~= consumed);
                        if switch {
                            let new = self.toker.reads().skip(reads0.len() as int);
                            if new.len() > 0 {
                                assert(self.toker.reads()[reads0.len() as int] == new[0]);
                                if new[0] is Err {
                                    assert(!blank(new[0]));
                                    assert(new.len() == 1);
                                    assert(new.last() == new[0]);
                                }
                            }
                        }
                    }
                    return Err(ParseError::Tokenizer(e));
                },
            };
            proof {
                if switch {
                    let new = self.toker.reads().skip(reads0.len() as int);
                    assert(self.toker.reads()[reads0.len() as int] == new[0]);
                    if new.len() > 1 {
                        assert(blank(new[0]));
                    } else {
                        assert(new.last() == new[0]);
                    }
                    ended = self.toker.reads();
                    track = false;
                }
                if track {
                    assert(tok@ == rest_before[0]);
                    assert(consumed.push(tok@) + rest_before.skip(1) =~= consumed + rest_before);
                }
                consumed = consumed.push(tok@);
                assert(self.toker.history() =~= h0 + consumed);
                assert(consumed.drop_last() =~= before);
                assert(self.toker.history().skip(h0.len() as int) =~= consumed);
            }
            if tok.is_atom() {
                let n = match Self::parse_atom(&tok) {
                    Ok(n) => n,
                    Err(e) => {
                        proof {
                            if track {
                                lemma_run_settled(start, consumed, self.toker.upcoming()->Some_0);
                            }
                        }
                        return Err(e);
                    },
                };
                let mut top = open.pop().unwrap();
                assert(views(top@) == f0.last());
                assert(frames(open@) =~= f0.drop_last());
                top.push(n);
                assert(views(top@) == f0.last().push(n@));
                open.push(top);
                proof {
                    assert(frames(open@) =~= f0.drop_last().push(f0.last().push(n@)));
                }
            } else if tok.is_cell_start() {
                let fresh: Vec<Noun> = Vec::new();
                assert(views(fresh@) =~= Seq::<Tree>::empty());
                open.push(fresh);
                proof {
                    assert(frames(open@) =~= f0.push(Seq::<Tree>::empty()));
                }
            } else if tok.is_cell_end() {
                let top = open.pop().unwrap();
                proof {
                    assert(frames(open@) =~= f0.drop_last());
                    assert(views(top@) == f0.last());
                }
                if top.len() <= 1 {
                    proof {
                        if track {
                            lemma_run_settled(start, consumed, self.toker.upcoming()->Some_0);
                        }
                    }
                    if top.len() == 0 {
                        return Err(ParseError::UnhandledToken { line: tok.line, col: tok.col });
                    }
                    return Err(ParseError::ShortCell { line: tok.line, col: tok.col });
                }
                let flat = Noun::flatten(top);
                proof {
                    Noun::lemma_cell_view(flat);
                }
                let c = Noun::Cell(flat);
                if open.len() == 0 {
                    proof {
                        if track {
                            lemma_run_settled(start, consumed, self.toker.upcoming()->Some_0);
                            assert(all.skip(consumed.len() as int) =~= self.toker.upcoming()->Some_0);
                        }
                    }
                    return Ok(c);
                }
                let ghost f1 = frames(open@);
                let mut parent = open.pop().unwrap();
                assert(views(parent@) == f1.last());
                assert(frames(open@) =~= f1.drop_last());
                let ghost cv = c@;
                parent.push(c);
                assert(views(parent@) == f1.last().push(cv));
                open.push(parent);
                proof {
                    assert(frames(open@) =~= f1.drop_last().push(f1.last().push(cv)));
                }
            } else {
                proof {
                    if track {
                        lemma_run_settled(start, consumed, self.toker.upcoming()->Some_0);
                    }
                }
                return Err(ParseError::UnhandledToken { line: tok.line, col: tok.col });
            }
        }
    }

    /// Parses a single noun from the tokens that follow, or returns an
    /// error. The result is fixed by the tokens consumed (see `step`); a
    /// tokenizer error is the one that the last token request returned.
    pub fn parse(&mut self) -> (r: Result<Noun, ParseError>)
        ensures
            old(self).history().is_prefix_of(final(self).history()),
            parse_result(
                Progress::Partial(Seq::empty()),
                final(self).history().skip(old(self).history().len() as int),
                r,
            ),
            r matches Err(ParseError::Tokenizer(e)) ==> final(self).requests() > old(self).requests()
                && final(self).failure() == Some(e),
            old(self).reads().is_prefix_of(final(self).reads()),
            source(old(self).upcoming(), old(self).used_up(), old(self).reads(), final(self).reads())
                is Some ==> {
                let ts = source(
                    old(self).upcoming(),
                    old(self).used_up(),
                    old(self).reads(),
                    final(self).reads(),
                )->Some_0;
                let n0 = old(self).reads().len() + if old(self).used_up() {
                    1int
                } else {
                    0int
                };
                let k = final(self).history().len() - old(self).history().len();
                &&& run(ts) is Done ==> final(self).reads().len() == n0 && r is Ok && run(ts)
                    == Progress::Done(r->Ok_0@) && final(self).upcoming() == Some(ts.skip(k))
                &&& run(ts) is Failed ==> final(self).reads().len() == n0 && r == Err::<
                    Noun,
                    ParseError,
                >(run(ts)->Failed_0)
                &&& run(ts) is Partial && final(self).reads().len() > n0 && final(self).reads()[n0]
                    is Err ==> r == Err::<Noun, ParseError>(
                    ParseError::Tokenizer(TokenizerError::Read(final(self).reads()[n0]->Err_0)),
                )
            },
    {
        let ghost p0 = Progress::Partial(Seq::<Seq<Tree>>::empty());
        let ghost h0 = self.toker.history();
        let ghost reads0 = self.toker.reads();
        let ghost up0 = self.toker.upcoming();
        let ghost used0 = self.toker.ahead() is Exhausted;
        let tok = match self.toker.next() {
            Ok(t) => t,
            Err(e) => {
                assert(self.toker.history().skip(h0.len() as int) =~= Seq::<Lexeme>::empty());
                return Err(ParseError::Tokenizer(e));
            },
        };
        let ghost first = seq![tok@];
        let ghost h1 = self.toker.history();
        let ghost reads1 = self.toker.reads();
        assert(h1.skip(h0.len() as int) =~= first);
        assert(first.drop_last() =~= Seq::<Lexeme>::empty());
        let ghost src = source(up0, used0, reads0, reads1);
        let ghost ts = if src is Some {
            src->Some_0
        } else {
            Seq::<Lexeme>::empty()
        };
        proof {
            if src is Some {
                if !(up0 is Some && up0->Some_0.len() > 0) {
                    assert(reads1[reads0.len() as int] == reads1.skip(reads0.len() as int)[0]);
                    assert(reads1.last() == reads1[reads0.len() as int]);
                }
                assert(ts =~= first + ts.skip(1));
            }
        }
        if tok.is_atom() {
            let r = Self::parse_atom(&tok);
            proof {
                if src is Some {
                    if !(r is Ok) {
                        assert(run(first) is Failed);
                    }
                    lemma_run_settled(p0, first, ts.skip(1));
                }
            }
            return r;
        } else if tok.is_cell_start() {
            let ghost mid = *self;
            proof {
                if src is Some {
                    assert(step(p0, tok@) == Progress::Partial(seq![Seq::<Tree>::empty()]));
                    lemma_run_from_first(p0, tok@, ts.skip(1));
                    assert(mid.upcoming() == Some(ts.skip(1)));
                }
            }
            let r = self.parse_cell();
            proof {
                if src is Some && run(ts) is Done {
                    let k2 = self.toker.history().len() - h1.len();
                    assert(ts.skip(1).skip(k2) =~= ts.skip(k2 + 1));
                }
                let rest = self.toker.history().skip(h1.len() as int);
                assert(self.toker.history().skip(h0.len() as int) =~= first + rest);
                assert(step(p0, tok@) == Progress::Partial(seq![Seq::<Tree>::empty()]));
                lemma_run_from_first(p0, tok@, rest);
                if rest.len() > 0 {
                    lemma_run_from_first(p0, tok@, rest.drop_last());
                    assert((first + rest).drop_last() =~= first + rest.drop_last());
                }
            }
            return r;
        }
        proof {
            if src is Some {
                assert(run(first) is Failed);
                lemma_run_settled(p0, first, ts.skip(1));
            }
        }
        Err(ParseError::UnhandledToken { line: tok.line, col: tok.col })
    }
}

} // verus!
