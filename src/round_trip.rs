//! Round trips between nouns and their text: the tokens that write a noun
//! parse back to it, and scanning a noun's rendering finds those tokens.
use vstd::prelude::*;
use vstd::utf8::{encode_utf8, is_ascii_chars, is_ascii_chars_encode_utf8};

use crate::parser::{
    add_element, all_digits, decimal, decimal_text, digit_char, flatten_seq, render_seq, render_tree, run, run_from, step, atom_of, Progress, Tree,
};
use crate::tokenizer::{gobble, is_atom_text, is_digit, is_space, lex_all, scan, Lexeme, Scan};

verus! {

/// A noun as the parser builds it: every cell holds two elements or more
/// and ends in an atom.
pub open spec fn canonical(t: Tree) -> bool
    decreases t,
{
    match t {
        Tree::Atom(_) => true,
        Tree::Cell(l) => l.len() >= 2 && l.last() is Atom && forall|i: int|
            0 <= i < l.len() ==> canonical(#[trigger] l[i]),
    }
}

/// The texts of the tokens that write a noun.
pub open spec fn token_texts(t: Tree) -> Seq<Seq<char>>
    decreases t,
{
    match t {
        Tree::Atom(a) => seq![decimal_text(a as nat)],
        Tree::Cell(l) => seq![seq!['[']] + texts_seq(l) + seq![seq![']']],
    }
}

/// The texts of the tokens that write some nouns, one after the other.
pub open spec fn texts_seq(l: Seq<Tree>) -> Seq<Seq<char>>
    decreases l,
{
    if l.len() == 0 {
        Seq::empty()
    } else {
        texts_seq(l.drop_last()) + token_texts(l.last())
    }
}

pub open spec fn texts_of(toks: Seq<Lexeme>) -> Seq<Seq<char>> {
    Seq::new(toks.len(), |i: int| toks[i].text)
}

proof fn lemma_decimal_text(n: nat)
    ensures
        all_digits(decimal_text(n)),
        decimal_text(n).len() > 0,
        decimal(decimal_text(n)) == n,
    decreases n,
{
    let t = decimal_text(n);
    if n < 10 {
        assert(t.drop_last() =~= Seq::<char>::empty());
        assert(decimal(t.drop_last()) == 0);
    } else {
        lemma_decimal_text(n / 10);
        assert(t.drop_last() =~= decimal_text(n / 10));
        assert((n / 10) * 10 + n % 10 == n) by (nonlinear_arith);
    }
    assert(t.last() == digit_char(n % 10));
    assert(digit_char(n % 10) as nat == n % 10 + 48);
    assert forall|i: int| 0 <= i < t.len() implies is_digit(#[trigger] t[i]) by {
        if i < t.len() - 1 {
            assert(t[i] == t.drop_last()[i]);
        }
    }
}

proof fn lemma_run_from_append(st: Progress, x: Seq<Lexeme>, y: Seq<Lexeme>)
    ensures
        run_from(st, x + y) == run_from(run_from(st, x), y),
    decreases y.len(),
{
    if y.len() == 0 {
        assert(x + y =~= x);
    } else {
        lemma_run_from_append(st, x, y.drop_last());
        assert((x + y).drop_last() =~= x + y.drop_last());
        assert((x + y).last() == y.last());
    }
}

proof fn lemma_texts_split(toks: Seq<Lexeme>, k: int)
    requires
        0 <= k <= toks.len(),
    ensures
        texts_of(toks.take(k)) == texts_of(toks).take(k),
        texts_of(toks.skip(k)) == texts_of(toks).skip(k),
        toks == toks.take(k) + toks.skip(k),
{
    assert(texts_of(toks.take(k)) =~= texts_of(toks).take(k));
    assert(texts_of(toks.skip(k)) =~= texts_of(toks).skip(k));
    assert(toks =~= toks.take(k) + toks.skip(k));
}

proof fn lemma_run_one(st: Progress, lx: Lexeme)
    ensures
        run_from(st, seq![lx]) == step(st, lx),
{
    assert(seq![lx].drop_last() =~= Seq::<Lexeme>::empty());
    assert(run_from(st, Seq::<Lexeme>::empty()) == st);
    assert(seq![lx].last() == lx);
}

proof fn lemma_open_step(open: Seq<Seq<Tree>>, lx: Lexeme)
    requires
        lx.text == seq!['['],
    ensures
        step(Progress::Partial(open), lx) == Progress::Partial(open.push(Seq::empty())),
{
    assert(!is_atom_text(lx.text));
}

proof fn lemma_close_step(open: Seq<Seq<Tree>>, l: Seq<Tree>, lx: Lexeme)
    requires
        lx.text == seq![']'],
        l.len() >= 2,
    ensures
        step(Progress::Partial(open.push(l)), lx) == add_element(open, Tree::Cell(flatten_seq(l))),
{
    assert(!is_atom_text(lx.text));
    assert(lx.text != seq!['[']);
    assert(open.push(l).drop_last() =~= open);
}

/// The tokens `[`, those that write the elements `l`, and `]` make the
/// autoconsed cell of `l`.
proof fn lemma_parse_cell_of(l: Seq<Tree>, open: Seq<Seq<Tree>>, toks: Seq<Lexeme>)
    requires
        l.len() >= 2,
        forall|i: int| 0 <= i < l.len() ==> canonical(#[trigger] l[i]),
        texts_of(toks) == seq![seq!['[']] + texts_seq(l) + seq![seq![']']],
    ensures
        run_from(Progress::Partial(open), toks) == add_element(open, Tree::Cell(flatten_seq(l))),
    decreases l, 2nat,
{
    let mid = texts_seq(l);
    assert(texts_of(toks).len() == toks.len());
    let n = toks.len();
    assert(n == mid.len() + 2);
    let body = toks.subrange(1, n - 1);
    let whole = texts_of(toks);
    assert forall|i: int| 0 <= i < body.len() implies #[trigger] texts_of(body)[i] == mid[i] by {
        assert(texts_of(body)[i] == whole[i + 1]);
        assert((seq![seq!['[']] + mid + seq![seq![']']])[i + 1] == mid[i]);
    }
    assert(texts_of(body) =~= mid);
    assert(toks[0].text == texts_of(toks)[0]);
    assert(toks[n - 1].text == texts_of(toks)[n - 1]);
    assert(toks =~= seq![toks[0]] + body + seq![toks[n - 1]]);
    lemma_run_one(Progress::Partial(open), toks[0]);
    lemma_open_step(open, toks[0]);
    lemma_parse_seq(l, open, body);
    assert(Seq::<Tree>::empty() + l =~= l);
    lemma_run_one(Progress::Partial(open.push(l)), toks[n - 1]);
    lemma_close_step(open, l, toks[n - 1]);
    lemma_run_from_append(Progress::Partial(open), seq![toks[0]], body);
    lemma_run_from_append(Progress::Partial(open), seq![toks[0]] + body, seq![toks[n - 1]]);
}

proof fn lemma_parse_tree(t: Tree, open: Seq<Seq<Tree>>, toks: Seq<Lexeme>)
    requires
        canonical(t),
        texts_of(toks) == token_texts(t),
    ensures
        run_from(Progress::Partial(open), toks) == add_element(open, t),
    decreases t, 3nat,
{
    match t {
        Tree::Atom(a) => {
            lemma_decimal_text(a as nat);
            assert(token_texts(t) == seq![decimal_text(a as nat)]);
            assert(texts_of(toks).len() == toks.len());
            assert(toks.len() == 1);
            assert(toks[0].text == texts_of(toks)[0]);
            assert(toks =~= seq![toks[0]]);
            lemma_run_one(Progress::Partial(open), toks[0]);
        },
        Tree::Cell(l) => {
            assert(token_texts(t) == seq![seq!['[']] + texts_seq(l) + seq![seq![']']]);
            assert(flatten_seq(l) == l);
            lemma_parse_cell_of(l, open, toks);
        },
    }
}

proof fn lemma_parse_seq(l: Seq<Tree>, open: Seq<Seq<Tree>>, toks: Seq<Lexeme>)
    requires
        forall|i: int| 0 <= i < l.len() ==> canonical(#[trigger] l[i]),
        texts_of(toks) == texts_seq(l),
    ensures
        run_from(Progress::Partial(open.push(Seq::empty())), toks) == Progress::Partial(
            open.push(Seq::empty() + l),
        ),
    decreases l, 0nat,
{
    if l.len() == 0 {
        assert(toks =~= Seq::<Lexeme>::empty());
        assert(Seq::<Tree>::empty() + l =~= Seq::<Tree>::empty());
    } else {
        let init = l.drop_last();
        let k = texts_seq(init).len();
        assert(texts_seq(l) == texts_seq(init) + token_texts(l.last()));
        assert(texts_of(toks).len() == toks.len());
        lemma_texts_split(toks, k as int);
        assert(texts_of(toks.take(k as int)) =~= texts_seq(init));
        assert(texts_of(toks.skip(k as int)) =~= token_texts(l.last()));
        lemma_parse_seq(init, open, toks.take(k as int));
        let inner = open.push(Seq::<Tree>::empty() + init);
        lemma_parse_tree(l.last(), inner, toks.skip(k as int));
        lemma_run_from_append(Progress::Partial(open.push(Seq::empty())), toks.take(k as int), toks.skip(k as int));
        assert(inner.drop_last() =~= open);
        assert((Seq::<Tree>::empty() + init).push(l.last()) =~= Seq::<Tree>::empty() + l);
    }
}

/// Every element of every open cell is canonical.
pub open spec fn open_canonical(open: Seq<Seq<Tree>>) -> bool {
    forall|i: int, j: int| 0 <= i < open.len() && 0 <= j < open[i].len() ==> canonical(
        #[trigger] open[i][j],
    )
}

proof fn lemma_add_element_canonical(open: Seq<Seq<Tree>>, n: Tree)
    requires
        open_canonical(open),
        canonical(n),
    ensures
        add_element(open, n) matches Progress::Partial(o) ==> open_canonical(o),
        add_element(open, n) matches Progress::Done(t) ==> canonical(t),
{
    if open.len() > 0 {
        let o = open.drop_last().push(open.last().push(n));
        assert forall|i: int, j: int| 0 <= i < o.len() && 0 <= j < o[i].len() implies canonical(
            #[trigger] o[i][j],
        ) by {
            if i < o.len() - 1 {
                assert(o[i][j] == open[i][j]);
            } else if j < open.last().len() {
                assert(o[i][j] == open[open.len() - 1][j]);
            }
        }
    }
}

proof fn lemma_step_canonical(st: Progress, lx: Lexeme)
    requires
        st matches Progress::Partial(o) ==> open_canonical(o),
        st matches Progress::Done(t) ==> canonical(t),
    ensures
        step(st, lx) matches Progress::Partial(o) ==> open_canonical(o),
        step(st, lx) matches Progress::Done(t) ==> canonical(t),
{
    if let Progress::Partial(open) = st {
        if is_atom_text(lx.text) {
            if let Ok(n) = atom_of(lx) {
                lemma_add_element_canonical(open, n);
            }
        } else if lx.text == seq!['['] {
            let o = open.push(Seq::<Tree>::empty());
            assert forall|i: int, j: int| 0 <= i < o.len() && 0 <= j < o[i].len() implies canonical(
                #[trigger] o[i][j],
            ) by {
                assert(o[i][j] == open[i][j]);
            }
        } else if lx.text == seq![']'] && open.len() > 0 && open.last().len() >= 2 {
            let top = open.last();
            let rest = open.drop_last();
            assert(open_canonical(rest)) by {
                assert forall|i: int, j: int| 0 <= i < rest.len() && 0 <= j < rest[i].len() implies canonical(
                    #[trigger] rest[i][j],
                ) by {
                    assert(rest[i][j] == open[i][j]);
                }
            }
            assert forall|j: int| 0 <= j < top.len() implies canonical(#[trigger] top[j]) by {
                assert(top[j] == open[open.len() - 1][j]);
            }
            let flat = flatten_seq(top);
            if let Tree::Cell(m) = top.last() {
                assert(canonical(top[top.len() - 1]));
                assert((top.drop_last() + m).last() == m.last());
                assert(flatten_seq(top.drop_last() + m) == top.drop_last() + m);
                assert(flat == top.drop_last() + m);
                assert forall|j: int| 0 <= j < flat.len() implies canonical(#[trigger] flat[j]) by {
                    if j < top.len() - 1 {
                        assert(flat[j] == top[j]);
                    } else {
                        assert(flat[j] == m[j - (top.len() - 1)]);
                    }
                }
                assert(flat.last() == m.last());
            }
            assert(canonical(Tree::Cell(flat)));
            lemma_add_element_canonical(rest, Tree::Cell(flat));
        }
    }
}

proof fn lemma_run_canonical(toks: Seq<Lexeme>)
    ensures
        run(toks) matches Progress::Partial(o) ==> open_canonical(o),
        run(toks) matches Progress::Done(t) ==> canonical(t),
    decreases toks.len(),
{
    if toks.len() > 0 {
        lemma_run_canonical(toks.drop_last());
        lemma_step_canonical(run(toks.drop_last()), toks.last());
    }
}

/// Parsing the tokens that write a noun gives the noun back, for every noun
/// that the parser can build.
pub proof fn lemma_parse_token_texts(t: Tree, toks: Seq<Lexeme>)
    requires
        canonical(t),
        texts_of(toks) == token_texts(t),
    ensures
        run(toks) == Progress::Done(t),
{
    lemma_parse_tree(t, Seq::empty(), toks);
}

/// Whether the bytes of `w` from `k` on spell the ASCII text `s`.
pub open spec fn writes_at(w: Seq<u8>, k: int, s: Seq<char>) -> bool {
    0 <= k && k + s.len() <= w.len() && forall|i: int| 0 <= i < s.len() ==> w[k + i] == (
    #[trigger] s[i]) as u8
}

/// Whether a digit run cannot go on at `k`: the line ends there, or the byte
/// there is neither a digit nor a dot.
pub open spec fn ends_run(w: Seq<u8>, k: int) -> bool {
    k >= w.len() || !(is_digit(w[k] as char) || w[k] as char == '.')
}

proof fn lemma_render_ascii(t: Tree)
    ensures
        is_ascii_chars(render_tree(t)),
    decreases t, 1nat,
{
    match t {
        Tree::Atom(a) => lemma_decimal_text(a as nat),
        Tree::Cell(l) => {
            lemma_render_seq_ascii(l);
            let r = render_tree(t);
            let m = render_seq(l);
            assert forall|i: int| 0 <= i < r.len() implies '\0' <= #[trigger] r[i] <= '\u{7f}' by {
                if 1 <= i < r.len() - 1 {
                    assert(r[i] == m[i - 1]);
                }
            }
        },
    }
}

proof fn lemma_render_seq_ascii(l: Seq<Tree>)
    ensures
        is_ascii_chars(render_seq(l)),
    decreases l, 0nat,
{
    if l.len() == 1 {
        lemma_render_ascii(l[0]);
    } else if l.len() > 1 {
        lemma_render_seq_ascii(l.drop_last());
        lemma_render_ascii(l.last());
        let a = render_seq(l.drop_last());
        let b = render_tree(l.last());
        let r = render_seq(l);
        assert forall|i: int| 0 <= i < r.len() implies '\0' <= #[trigger] r[i] <= '\u{7f}' by {
            if i < a.len() {
                assert(r[i] == a[i]);
            } else if i > a.len() {
                assert(r[i] == b[i - a.len() - 1]);
            }
        }
    }
}

/// Whitespace is skipped before a token.
proof fn lemma_lex_space(b: Seq<Seq<u8>>, k: int)
    requires
        b.len() == 1,
        0 <= k < b[0].len(),
        is_space(b[0][k] as char),
    ensures
        lex_all(b, 0, k) == lex_all(b, 0, k + 1),
{
    assert(scan(b, 0, k) == scan(b, 0, k + 1));
}

/// Nothing is left at the end of a one-line buffer.
proof fn lemma_lex_end(b: Seq<Seq<u8>>)
    requires
        b.len() == 1,
    ensures
        lex_all(b, 0, b[0].len() as int) == Some(Seq::<Lexeme>::empty()),
{
    assert(scan(b, 1, 0) == Scan::Exhausted);
    assert(scan(b, 0, b[0].len() as int) == Scan::Exhausted);
}

proof fn lemma_gobble_digits(b: Seq<Seq<u8>>, k: int, v: Seq<char>, digits: Seq<char>)
    requires
        b.len() == 1,
        writes_at(b[0], k, digits),
        all_digits(digits),
    ensures
        gobble(b, 0, k, v) == gobble(b, 0, k + digits.len(), v + digits),
    decreases digits.len(),
{
    if digits.len() == 0 {
        assert(v + digits =~= v);
    } else {
        let c = digits[0];
        assert(b[0][k] == c as u8);
        assert((c as u8) as char == c);
        let rest = digits.drop_first();
        assert(writes_at(b[0], k + 1, rest)) by {
            assert forall|i: int| 0 <= i < rest.len() implies b[0][k + 1 + i] == (
            #[trigger] rest[i]) as u8 by {
                assert(rest[i] == digits[i + 1]);
            }
        }
        assert(all_digits(rest)) by {
            assert forall|i: int| 0 <= i < rest.len() implies is_digit(#[trigger] rest[i]) by {
                assert(rest[i] == digits[i + 1]);
            }
        }
        lemma_gobble_digits(b, k + 1, v.push(c), rest);
        assert(v.push(c) + rest =~= v + digits);
    }
}

/// Scanning the rendering of a noun finds the tokens that write it, and
/// then what follows the rendering.
proof fn lemma_lex_tree(b: Seq<Seq<u8>>, t: Tree, k: int)
    requires
        b.len() == 1,
        writes_at(b[0], k, render_tree(t)),
        ends_run(b[0], k + render_tree(t).len()),
        lex_all(b, 0, k + render_tree(t).len()) is Some,
    ensures
        lex_all(b, 0, k) is Some,
        texts_of(lex_all(b, 0, k)->Some_0) == token_texts(t) + texts_of(
            lex_all(b, 0, k + render_tree(t).len())->Some_0,
        ),
    decreases t, 1nat,
{
    let w = b[0];
    let n = render_tree(t).len();
    match t {
        Tree::Atom(a) => {
            let digits = decimal_text(a as nat);
            lemma_decimal_text(a as nat);
            let c = digits[0];
            assert(w[k] == c as u8);
            assert((c as u8) as char == c);
            let rest = digits.drop_first();
            assert(writes_at(w, k + 1, rest)) by {
                assert forall|i: int| 0 <= i < rest.len() implies w[k + 1 + i] == (
                #[trigger] rest[i]) as u8 by {
                    assert(rest[i] == digits[i + 1]);
                }
            }
            assert(all_digits(rest)) by {
                assert forall|i: int| 0 <= i < rest.len() implies is_digit(#[trigger] rest[i]) by {
                    assert(rest[i] == digits[i + 1]);
                }
            }
            lemma_gobble_digits(b, k + 1, seq![c], rest);
            assert(seq![c] + rest =~= digits);
            let e = k + n;
            let g = gobble(b, 0, e, digits);
            let after = lex_all(b, 0, e);
            if e >= w.len() {
                lemma_lex_end(b);
                assert(scan(b, 1, 0) == Scan::Exhausted);
                assert(g == (digits, 1int, 0int));
                assert(lex_all(b, 1, 0) == Some(Seq::<Lexeme>::empty()));
            } else if is_space(w[e] as char) {
                lemma_lex_space(b, e);
                assert(g == (digits, 0int, e + 1));
            } else {
                assert(g == (digits, 0int, e));
            }
            assert(lex_all(b, g.1, g.2) == after);
            let lx = Lexeme { text: digits, line: 0, col: k };
            assert(scan(b, 0, k) == Scan::Found(lx, g.1, g.2));
            assert(lex_all(b, 0, k) == Some(seq![lx] + after->Some_0));
            assert(texts_of(seq![lx] + after->Some_0) =~= seq![digits] + texts_of(after->Some_0));
        },
        Tree::Cell(l) => {
            let m = render_seq(l);
            let r = render_tree(t);
            assert(r == seq!['['] + m + seq![']']);
            assert(w[k] == r[0] as u8);
            assert(r[0] == '[');
            assert(writes_at(w, k + 1, m)) by {
                assert forall|i: int| 0 <= i < m.len() implies w[k + 1 + i] == (#[trigger] m[i]) as u8 by {
                    assert(m[i] == r[i + 1]);
                }
            }
            assert(w[k + 1 + m.len()] == r[m.len() as int + 1] as u8);
            assert(r[m.len() as int + 1] == ']');
            assert(ends_run(w, k + 1 + m.len()));
            let close_at = k + 1 + m.len();
            let after = lex_all(b, 0, k + n);
            assert(scan(b, 0, close_at) == Scan::Found(
                Lexeme { text: seq![']'], line: 0, col: close_at },
                0,
                k + n,
            ));
            assert(lex_all(b, 0, close_at) == Some(
                seq![Lexeme { text: seq![']'], line: 0, col: close_at }] + after->Some_0,
            ));
            lemma_lex_seq(b, l, k + 1);
            let inner = lex_all(b, 0, k + 1);
            assert(scan(b, 0, k) == Scan::Found(Lexeme { text: seq!['['], line: 0, col: k }, 0, k + 1));
            let open_lx = Lexeme { text: seq!['['], line: 0, col: k };
            assert(lex_all(b, 0, k) == Some(seq![open_lx] + inner->Some_0));
            let close_lx = Lexeme { text: seq![']'], line: 0, col: close_at };
            assert(texts_of(seq![close_lx] + after->Some_0) =~= seq![seq![']']] + texts_of(after->Some_0));
            assert(texts_of(seq![open_lx] + inner->Some_0) =~= seq![seq!['[']] + texts_of(inner->Some_0));
            assert(token_texts(t) == seq![seq!['[']] + texts_seq(l) + seq![seq![']']]);
            assert(texts_of(lex_all(b, 0, k)->Some_0) =~= token_texts(t) + texts_of(after->Some_0));
        },
    }
}

proof fn lemma_lex_seq(b: Seq<Seq<u8>>, l: Seq<Tree>, k: int)
    requires
        b.len() == 1,
        writes_at(b[0], k, render_seq(l)),
        ends_run(b[0], k + render_seq(l).len()),
        lex_all(b, 0, k + render_seq(l).len()) is Some,
    ensures
        lex_all(b, 0, k) is Some,
        texts_of(lex_all(b, 0, k)->Some_0) == texts_seq(l) + texts_of(
            lex_all(b, 0, k + render_seq(l).len())->Some_0,
        ),
    decreases l, 0nat,
{
    let w = b[0];
    if l.len() == 0 {
        assert(texts_seq(l) + texts_of(lex_all(b, 0, k)->Some_0) =~= texts_of(lex_all(b, 0, k)->Some_0));
    } else if l.len() == 1 {
        assert(l.drop_last() =~= Seq::<Tree>::empty());
        assert(texts_seq(l) == texts_seq(Seq::<Tree>::empty()) + token_texts(l[0]));
        assert(texts_seq(l) =~= token_texts(l[0]));
        lemma_lex_tree(b, l[0], k);
    } else {
        let init = l.drop_last();
        let a = render_seq(init);
        let z = render_tree(l.last());
        let r = render_seq(l);
        assert(r == a + seq![' '] + z);
        assert(writes_at(w, k, a)) by {
            assert forall|i: int| 0 <= i < a.len() implies w[k + i] == (#[trigger] a[i]) as u8 by {
                assert(a[i] == r[i]);
            }
        }
        assert(w[k + a.len()] == r[a.len() as int] as u8);
        assert(r[a.len() as int] == ' ');
        assert(ends_run(w, k + a.len()));
        assert(writes_at(w, k + a.len() + 1, z)) by {
            assert forall|i: int| 0 <= i < z.len() implies w[k + a.len() + 1 + i] == (
            #[trigger] z[i]) as u8 by {
                assert(z[i] == r[a.len() + 1 + i]);
            }
        }
        lemma_lex_tree(b, l.last(), k + a.len() + 1);
        lemma_lex_space(b, k + a.len());
        lemma_lex_seq(b, init, k);
        assert(texts_seq(l) == texts_seq(init) + token_texts(l.last()));
    }
}

/// Round trip through text: for every noun that the parser builds from
/// some tokens, scanning its rendering as a one-line buffer finds tokens
/// that the parser turns back into the same noun.
pub proof fn lemma_render_parse_round_trip(toks: Seq<Lexeme>)
    requires
        run(toks) is Done,
    ensures
        lex_all(seq![encode_utf8(render_tree(run(toks)->Done_0))], 0, 0) matches Some(again) && run(
            again,
        ) == run(toks),
{
    let t = run(toks)->Done_0;
    lemma_run_canonical(toks);
    let r = render_tree(t);
    lemma_render_ascii(t);
    is_ascii_chars_encode_utf8(r);
    let b = seq![encode_utf8(r)];
    assert(writes_at(b[0], 0, r));
    assert(ends_run(b[0], r.len() as int));
    lemma_lex_end(b);
    lemma_lex_tree(b, t, 0);
    let again = lex_all(b, 0, 0)->Some_0;
    assert(texts_of(Seq::<Lexeme>::empty()) =~= Seq::<Seq<char>>::empty());
    assert(texts_of(again) =~= token_texts(t));
    lemma_parse_token_texts(t, again);
}

proof fn lemma_texts_seq_append(xs: Seq<Tree>, ys: Seq<Tree>)
    ensures
        texts_seq(xs + ys) == texts_seq(xs) + texts_seq(ys),
    decreases ys.len(),
{
    if ys.len() == 0 {
        assert(xs + ys =~= xs);
        assert(texts_seq(xs) + texts_seq(ys) =~= texts_seq(xs));
    } else {
        lemma_texts_seq_append(xs, ys.drop_last());
        assert((xs + ys).drop_last() =~= xs + ys.drop_last());
        assert((xs + ys).last() == ys.last());
        assert(texts_seq(xs) + texts_seq(ys) =~= texts_seq(xs) + texts_seq(ys.drop_last())
            + token_texts(ys.last()));
    }
}

/// Autocons in the parser: writing the last elements of a cell as a cell of
/// their own changes nothing, `[x.. [y..]]` parses as `[x.. y..]`, for
/// nouns that the parser builds.
pub proof fn lemma_parse_autocons(
    xs: Seq<Tree>,
    ys: Seq<Tree>,
    nested: Seq<Lexeme>,
    flat: Seq<Lexeme>,
)
    requires
        xs.len() >= 1,
        canonical(Tree::Cell(ys)),
        forall|i: int| 0 <= i < xs.len() ==> canonical(#[trigger] xs[i]),
        texts_of(nested) == seq![seq!['[']] + texts_seq(xs) + seq![seq!['[']] + texts_seq(ys)
            + seq![seq![']']] + seq![seq![']']],
        texts_of(flat) == seq![seq!['[']] + texts_seq(xs) + texts_seq(ys) + seq![seq![']']],
    ensures
        run(nested) == run(flat),
        run(flat) == Progress::Done(Tree::Cell(xs + ys)),
{
    let y = Tree::Cell(ys);
    let l1 = xs.push(y);
    let l2 = xs + ys;
    assert(l1.drop_last() =~= xs);
    assert(texts_seq(l1) == texts_seq(xs) + token_texts(y));
    assert(token_texts(y) == seq![seq!['[']] + texts_seq(ys) + seq![seq![']']]);
    assert(seq![seq!['[']] + texts_seq(l1) + seq![seq![']']] =~= seq![seq!['[']] + texts_seq(xs)
        + seq![seq!['[']] + texts_seq(ys) + seq![seq![']']] + seq![seq![']']]);
    assert forall|i: int| 0 <= i < l1.len() implies canonical(#[trigger] l1[i]) by {
        if i < xs.len() {
            assert(l1[i] == xs[i]);
        }
    }
    lemma_parse_cell_of(l1, Seq::empty(), nested);
    lemma_texts_seq_append(xs, ys);
    assert(seq![seq!['[']] + texts_seq(l2) + seq![seq![']']] =~= seq![seq!['[']] + texts_seq(xs)
        + texts_seq(ys) + seq![seq![']']]);
    assert forall|i: int| 0 <= i < l2.len() implies canonical(#[trigger] l2[i]) by {
        if i < xs.len() {
            assert(l2[i] == xs[i]);
        } else {
            assert(l2[i] == ys[i - xs.len()]);
        }
    }
    lemma_parse_cell_of(l2, Seq::empty(), flat);
    assert(l2.last() == ys.last());
    assert(flatten_seq(l2) == l2);
    assert(l1.last() == y);
    assert(flatten_seq(l1) == flatten_seq(l1.drop_last() + ys));
}

} // verus!
