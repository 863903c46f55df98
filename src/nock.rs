//! The Nock evaluator: tree addressing, the opcode dispatcher and the macro
//! opcodes, which are rewritten into formulas of primitive opcodes.
use vstd::prelude::*;

use crate::parser::{
    atom, flatten_seq, lemma_views_empty, lemma_views_push, views, Noun, ParseError, Tree,
};

verus! {

broadcast use {lemma_views_empty, lemma_views_push};

/// Why a Nock computation failed.
#[derive(Debug, PartialEq)]
pub enum NockError {
    /// Slot address 0 does not name any part of a noun.
    InvalidAddress,
    /// Opcode 0 was given a cell where a slot address belongs.
    NotASlot,
    /// A bare atom as a formula never terminates.
    InfiniteLoop,
    /// Opcode 4 was asked to increment a cell.
    IncrementCell,
    /// Opcode 5 was given an atom to compare.
    CompareAtom,
    /// Opcode 5 was given a cell of fewer than two elements.
    CompareShortCell,
    /// An empty sequence of nouns does not make a noun.
    EmptyCell,
    /// Opcode 2, or a macro opcode, was given too few operands.
    TooFewOperands(u64),
    /// An opcode above 10.
    UnknownInstruction(u64),
    /// The input to `compute` is neither an atom nor a `[subject formula]` cell.
    InvalidExpression,
    /// The reduction nested deeper than its depth allowance.
    TooDeep,
    /// A noun did not have the shape an operation needs.
    Parse(ParseError),
}

impl NockError {
    /// The human-readable message of this error, without its cause.
    pub open spec fn spec_message(&self) -> Seq<char> {
        match self {
            NockError::InvalidAddress => "invalid slot address 0"@,
            NockError::NotASlot => "not a slot index"@,
            NockError::InfiniteLoop => "a bare atom as a formula never terminates"@,
            NockError::IncrementCell => "cannot increment a cell"@,
            NockError::CompareAtom => "cannot compare an atom like a cell"@,
            NockError::CompareShortCell => "cannot compare a cell of only one noun"@,
            NockError::EmptyCell => "empty cell"@,
            NockError::TooFewOperands(_) => "too few operands for the opcode"@,
            NockError::UnknownInstruction(_) => "unknown Nock instruction"@,
            NockError::InvalidExpression => "invalid Nock expression"@,
            NockError::TooDeep => "reduction nested too deep"@,
            NockError::Parse(_) => "noun of the wrong shape"@,
        }
    }

    /// The human-readable message of this error, without its cause.
    pub fn message(&self) -> (r: &'static str)
        ensures
            r@ == self.spec_message(),
    {
        match self {
            NockError::InvalidAddress => "invalid slot address 0",
            NockError::NotASlot => "not a slot index",
            NockError::InfiniteLoop => "a bare atom as a formula never terminates",
            NockError::IncrementCell => "cannot increment a cell",
            NockError::CompareAtom => "cannot compare an atom like a cell",
            NockError::CompareShortCell => "cannot compare a cell of only one noun",
            NockError::EmptyCell => "empty cell",
            NockError::TooFewOperands(_) => "too few operands for the opcode",
            NockError::UnknownInstruction(_) => "unknown Nock instruction",
            NockError::InvalidExpression => "invalid Nock expression",
            NockError::TooDeep => "reduction nested too deep",
            NockError::Parse(_) => "noun of the wrong shape",
        }
    }
}

/// How deep `compute` lets a reduction nest before it gives up.
pub const MAX_DEPTH: u64 = 10000;

/// The outcome of an evaluation, over the models of nouns.
pub open spec fn outcome(r: Result<Noun, NockError>) -> Result<Tree, NockError> {
    match r {
        Ok(n) => Ok(n@),
        Err(e) => Err(e),
    }
}

/// The noun that a non-empty sequence of nouns stands for: its only element,
/// or the cell of all of them.
pub open spec fn rest_noun(s: Seq<Tree>) -> Tree {
    if s.len() == 1 {
        s[0]
    } else {
        Tree::Cell(s)
    }
}

/// The noun that a sequence of nouns stands for; none when it is empty.
pub open spec fn noun_of(s: Seq<Tree>) -> Result<Tree, NockError> {
    if s.len() == 0 {
        Err(NockError::EmptyCell)
    } else {
        Ok(rest_noun(s))
    }
}

/// A cell built from a candidate element list under the autocons rule.
pub open spec fn cell_of(s: Seq<Tree>) -> Tree {
    Tree::Cell(flatten_seq(s))
}

/// The head of a cell.
pub open spec fn head_of(t: Tree) -> Result<Tree, NockError> {
    if t is Cell && t->Cell_0.len() > 0 {
        Ok(t->Cell_0[0])
    } else {
        Err(NockError::Parse(ParseError::NoHead))
    }
}

/// The tail of a cell, as a noun.
pub open spec fn tail_of(t: Tree) -> Result<Tree, NockError> {
    if t is Cell && t->Cell_0.len() > 1 {
        Ok(rest_noun(t->Cell_0.skip(1)))
    } else {
        Err(NockError::Parse(ParseError::NoTail))
    }
}

/// The path from the root to a tree address: one step for each binary digit
/// below the leading one, `true` for a head step and `false` for a tail step.
pub open spec fn tree_path(addr: nat) -> Seq<bool>
    decreases addr,
{
    if addr <= 1 {
        Seq::empty()
    } else {
        tree_path(addr / 2).push(addr % 2 == 0)
    }
}

/// Follows a path down a noun.
pub open spec fn walk(t: Tree, path: Seq<bool>) -> Result<Tree, NockError>
    decreases path.len(),
{
    if path.len() == 0 {
        Ok(t)
    } else {
        let step = if path[0] {
            head_of(t)
        } else {
            tail_of(t)
        };
        match step {
            Ok(n) => walk(n, path.skip(1)),
            Err(e) => Err(e),
        }
    }
}

/// The part of `subj` at tree address `addr`.
pub open spec fn slot(subj: Tree, addr: u64) -> Result<Tree, NockError> {
    if addr == 0 {
        Err(NockError::InvalidAddress)
    } else {
        walk(subj, tree_path(addr as nat))
    }
}

proof fn lemma_walk_push(t: Tree, p: Seq<bool>, x: bool)
    ensures
        walk(t, p.push(x)) == match walk(t, p) {
            Ok(u) => if x {
                head_of(u)
            } else {
                tail_of(u)
            },
            Err(e) => Err(e),
        },
    decreases p.len(),
{
    if p.len() == 0 {
        assert(p.push(x).skip(1) =~= Seq::<bool>::empty());
        assert(p.push(x)[0] == x);
        assert(walk(t, p) == Ok::<Tree, NockError>(t));
        let step = if x {
            head_of(t)
        } else {
            tail_of(t)
        };
        if let Ok(u) = step {
            assert(walk(u, Seq::<bool>::empty()) == Ok::<Tree, NockError>(u));
        }
    } else {
        assert(p.push(x).skip(1) =~= p.skip(1).push(x));
        assert(p.push(x)[0] == p[0]);
        let first = if p[0] {
            head_of(t)
        } else {
            tail_of(t)
        };
        if let Ok(n) = first {
            lemma_walk_push(n, p.skip(1), x);
        }
    }
}

/// Tree addressing: the head of the noun at address `n` is at `2n`, and its
/// tail at `2n + 1`.
pub proof fn lemma_slot_children(subj: Tree, n: u64)
    requires
        1 <= n,
        2 * n + 1 <= u64::MAX,
    ensures
        slot(subj, (2 * n) as u64) == match slot(subj, n) {
            Ok(u) => head_of(u),
            Err(e) => Err(e),
        },
        slot(subj, (2 * n + 1) as u64) == match slot(subj, n) {
            Ok(u) => tail_of(u),
            Err(e) => Err(e),
        },
{
    assert((2 * n) as nat / 2 == n as nat);
    assert((2 * n + 1) as nat / 2 == n as nat);
    lemma_walk_push(subj, tree_path(n as nat), true);
    lemma_walk_push(subj, tree_path(n as nat), false);
}

/// Loobean cell test: 0 for a cell, 1 for an atom.
pub open spec fn wut_spec(t: Tree) -> Tree {
    if t is Atom {
        Tree::Atom(1)
    } else {
        Tree::Atom(0)
    }
}

/// Increment, wrapping around at 2^64.
pub open spec fn lus_spec(t: Tree) -> Result<Tree, NockError> {
    match t {
        Tree::Atom(a) => Ok(
            Tree::Atom(
                if a == u64::MAX {
                    0
                } else {
                    (a + 1) as u64
                },
            ),
        ),
        Tree::Cell(_) => Err(NockError::IncrementCell),
    }
}

/// Structural equality of `a` with the noun that `b` stands for. A single
/// cell in `b` is looked into, so that a cell equals its autoconsed form.
pub open spec fn same(a: Tree, b: Seq<Tree>) -> bool
    decreases a, b,
{
    match a {
        Tree::Cell(list) => {
            if b.len() == 1 && b[0] is Cell {
                same(a, b[0]->Cell_0)
            } else {
                list.len() == b.len() && forall|i: int|
                    0 <= i < list.len() ==> same(#[trigger] list[i], seq![b[i]])
            }
        },
        Tree::Atom(x) => b.len() == 1 && b[0] == Tree::Atom(x),
    }
}

/// Loobean equality of the head of a cell with the rest of it.
pub open spec fn tis_spec(t: Tree) -> Result<Tree, NockError> {
    match t {
        Tree::Atom(_) => Err(NockError::CompareAtom),
        Tree::Cell(list) => {
            if list.len() >= 2 {
                Ok(
                    Tree::Atom(
                        if same(list[0], list.skip(1)) {
                            0
                        } else {
                            1
                        },
                    ),
                )
            } else {
                Err(NockError::CompareShortCell)
            }
        },
    }
}

/// The atom `n`.
pub open spec fn a(n: u64) -> Tree {
    Tree::Atom(n)
}

/// `[6 b c d]` becomes `[2 [0 1] 2 [1 c d] [1 0] 2 [1 2 3] [1 0] 4 4 b]`.
pub open spec fn if_formula(b: Tree, c: Tree, d: Tree) -> Tree {
    cell_of(
        seq![
            a(2),
            cell_of(seq![a(0), a(1)]),
            a(2),
            cell_of(seq![a(1), c, d]),
            cell_of(seq![a(1), a(0)]),
            a(2),
            cell_of(seq![a(1), a(2), a(3)]),
            cell_of(seq![a(1), a(0)]),
            a(4),
            a(4),
            b,
        ],
    )
}

/// `[7 b c]` becomes `[2 b 1 c]`.
pub open spec fn compose_formula(b: Tree, c: Tree) -> Tree {
    cell_of(seq![a(2), b, a(1), c])
}

/// `[8 b c]` becomes `[7 [[7 [0 1] b] 0 1] c]`.
pub open spec fn push_formula(b: Tree, c: Tree) -> Tree {
    cell_of(
        seq![a(7), cell_of(seq![cell_of(seq![a(7), cell_of(seq![a(0), a(1)]), b]), a(0), a(1)]), c],
    )
}

/// `[9 b c]` becomes `[7 c 2 [0 1] 0 b]`.
pub open spec fn invoke_formula(b: Tree, c: Tree) -> Tree {
    cell_of(seq![a(7), c, a(2), cell_of(seq![a(0), a(1)]), a(0), b])
}

/// `[10 [b c] d]` becomes `[8 c 7 [0 3] d]`.
pub open spec fn hint_formula(c: Tree, d: Tree) -> Tree {
    cell_of(seq![a(8), c, a(7), cell_of(seq![a(0), a(3)]), d])
}

/// The formula that macro opcode `op` (6 to 10) rewrites to, given the
/// elements after the opcode.
pub open spec fn expand(op: u64, t: Seq<Tree>) -> Result<Tree, NockError> {
    if op == 6 {
        if t.len() < 3 {
            Err(NockError::TooFewOperands(6))
        } else {
            Ok(if_formula(t[0], t[1], rest_noun(t.skip(2))))
        }
    } else if t.len() < 2 {
        Err(NockError::TooFewOperands(op))
    } else {
        let c = rest_noun(t.skip(1));
        if op == 7 {
            Ok(compose_formula(t[0], c))
        } else if op == 8 {
            Ok(push_formula(t[0], c))
        } else if op == 9 {
            Ok(invoke_formula(t[0], c))
        } else {
            match t[0] {
                Tree::Atom(_) => Ok(c),
                Tree::Cell(list) => {
                    if list.len() <= 1 {
                        Err(NockError::EmptyCell)
                    } else {
                        Ok(hint_formula(rest_noun(list.skip(1)), c))
                    }
                },
            }
        }
    }
}

/// The reduction of `formula` against `subj`, nesting at most `depth` deep.
pub open spec fn eval(subj: Tree, formula: Tree, depth: nat) -> Result<Tree, NockError>
    decreases depth,
{
    if depth == 0 {
        Err(NockError::TooDeep)
    } else {
        match formula {
            Tree::Atom(_) => Err(NockError::InfiniteLoop),
            Tree::Cell(l) => {
                if l.len() == 0 {
                    Err(NockError::Parse(ParseError::NoHead))
                } else {
                    match l[0] {
                        Tree::Atom(op) => {
                            if op > 10 {
                                Err(NockError::UnknownInstruction(op))
                            } else if l.len() < 2 {
                                Err(NockError::Parse(ParseError::NoTail))
                            } else {
                                let t = l.skip(1);
                                let tn = rest_noun(t);
                                if op == 0 {
                                    match tn {
                                        Tree::Atom(b) => slot(subj, b),
                                        Tree::Cell(_) => Err(NockError::NotASlot),
                                    }
                                } else if op == 1 {
                                    Ok(tn)
                                } else if op == 2 {
                                    if t.len() < 2 {
                                        Err(NockError::TooFewOperands(2))
                                    } else {
                                        match eval(subj, t[0], (depth - 1) as nat) {
                                            Err(e) => Err(e),
                                            Ok(s2) => match eval(
                                                subj,
                                                rest_noun(t.skip(1)),
                                                (depth - 1) as nat,
                                            ) {
                                                Err(e) => Err(e),
                                                Ok(f2) => eval(s2, f2, (depth - 1) as nat),
                                            },
                                        }
                                    }
                                } else if op == 3 {
                                    match eval(subj, tn, (depth - 1) as nat) {
                                        Ok(r) => Ok(wut_spec(r)),
                                        Err(e) => Err(e),
                                    }
                                } else if op == 4 {
                                    if tn is Cell {
                                        match eval(subj, tn, (depth - 1) as nat) {
                                            Ok(r) => lus_spec(r),
                                            Err(e) => Err(e),
                                        }
                                    } else {
                                        lus_spec(tn)
                                    }
                                } else if op == 5 {
                                    tis_spec(tn)
                                } else {
                                    match expand(op, t) {
                                        Ok(f) => eval(subj, f, (depth - 1) as nat),
                                        Err(e) => Err(e),
                                    }
                                }
                            }
                        },
                        Tree::Cell(_) => {
                            match eval(subj, l[0], (depth - 1) as nat) {
                                Err(e) => Err(e),
                                Ok(hr) => {
                                    if l.len() < 2 {
                                        Err(NockError::Parse(ParseError::NoTail))
                                    } else {
                                        match eval(subj, rest_noun(l.skip(1)), (depth - 1) as nat) {
                                            Err(e) => Err(e),
                                            Ok(tr) => Ok(cell_of(seq![hr, tr])),
                                        }
                                    }
                                }
                            }
                        },
                    }
                }
            },
        }
    }
}

/// What `compute` returns: an atom is a formula against the subject 0, a
/// cell is `[subject formula]`.
pub open spec fn compute_spec(n: Tree) -> Result<Tree, NockError> {
    match n {
        Tree::Atom(_) => eval(Tree::Atom(0), n, MAX_DEPTH as nat),
        Tree::Cell(l) => {
            if l.len() >= 2 {
                eval(l[0], rest_noun(l.skip(1)), MAX_DEPTH as nat)
            } else {
                Err(NockError::InvalidExpression)
            }
        },
    }
}

/// A noun whose cells all hold two elements or more.
pub open spec fn wf(t: Tree) -> bool
    decreases t,
{
    match t {
        Tree::Atom(_) => true,
        Tree::Cell(l) => l.len() >= 2 && forall|i: int| 0 <= i < l.len() ==> wf(#[trigger] l[i]),
    }
}

proof fn lemma_same_refl(t: Tree)
    requires
        wf(t),
    ensures
        same(t, seq![t]),
        t is Cell ==> same(t, t->Cell_0),
    decreases t,
{
    if let Tree::Cell(l) = t {
        assert forall|i: int| 0 <= i < l.len() implies same(#[trigger] l[i], seq![seq![l[i]][0]]) by {
            lemma_same_refl(l[i]);
        }
        assert forall|i: int| 0 <= i < l.len() implies same(#[trigger] l[i], seq![l[i]]) by {
            assert(seq![l[i]][0] == l[i]);
        }
        assert(same(t, l));
    }
}

/// Opcode 5 finds every well-formed noun equal to itself, at any depth of
/// nesting, written as two elements; and, when the noun does not end in a
/// cell, autoconsed too.
pub proof fn lemma_tis_reflexive(t: Tree)
    requires
        wf(t),
    ensures
        tis_spec(Tree::Cell(seq![t, t])) == Ok::<Tree, NockError>(Tree::Atom(0)),
        !(t is Cell && t->Cell_0.last() is Cell) ==> tis_spec(cell_of(seq![t, t])) == Ok::<
            Tree,
            NockError,
        >(Tree::Atom(0)),
{
    lemma_same_refl(t);
    assert(seq![t, t].skip(1) =~= seq![t]);
    let flat = flatten_seq(seq![t, t]);
    if let Tree::Cell(l) = t {
        if !(l.last() is Cell) {
            assert((seq![t, t].drop_last() + l).last() == l.last());
            assert(flatten_seq(seq![t] + l) == seq![t] + l);
            assert(seq![t, t].drop_last() =~= seq![t]);
            assert(flat =~= seq![t] + l);
            assert(flat.skip(1) =~= l);
        }
    } else {
        assert(flat =~= seq![t, t]);
    }
}

/// Autocons goes down the whole tail chain: for well-formed nouns its
/// result does not end in a cell, and applying it again changes nothing.
pub proof fn lemma_flatten_complete(s: Seq<Tree>)
    requires
        forall|i: int| 0 <= i < s.len() ==> wf(#[trigger] s[i]),
    ensures
        s.len() > 0 ==> flatten_seq(s).len() > 0 && !(flatten_seq(s).last() is Cell),
        flatten_seq(flatten_seq(s)) == flatten_seq(s),
    decreases s.last(),
{
    if s.len() > 0 && s.last() is Cell {
        let l = s.last()->Cell_0;
        assert(wf(s[s.len() - 1]));
        let t = s.drop_last() + l;
        assert forall|i: int| 0 <= i < t.len() implies wf(#[trigger] t[i]) by {
            if i < s.len() - 1 {
                assert(t[i] == s[i]);
            } else {
                assert(t[i] == l[i - (s.len() - 1)]);
            }
        }
        assert(decreases_to!(s.last() => s.last()->Cell_0));
        assert(decreases_to!(l => l[l.len() - 1]));
        assert(t.last() == l[l.len() - 1]);
        lemma_flatten_complete(t);
    }
}

/// A noun that autocons leaves as it is when it ends an element list: an
/// atom, or a cell of two elements or more that does not end in a cell.
pub open spec fn ends_flat(t: Tree) -> bool {
    match t {
        Tree::Atom(_) => true,
        Tree::Cell(l) => l.len() >= 2 && !(l.last() is Cell),
    }
}

/// The elements that a noun contributes when it ends an element list.
pub open spec fn spliced(t: Tree) -> Seq<Tree> {
    match t {
        Tree::Atom(_) => seq![t],
        Tree::Cell(l) => l,
    }
}

proof fn lemma_flatten_end(s: Seq<Tree>, t: Tree)
    requires
        ends_flat(t),
    ensures
        flatten_seq(s.push(t)) == s + spliced(t),
        rest_noun(spliced(t)) == t,
{
    if let Tree::Cell(l) = t {
        assert(s.push(t).drop_last() =~= s);
        assert((s + l).last() == l.last());
        assert(flatten_seq(s + l) == s + l);
    } else {
        assert(s + spliced(t) =~= s.push(t));
    }
}

/// `[4 4 b]` adds two to what `b` gives.
proof fn lemma_if_count(subj: Tree, b: Tree, k: nat, v: u64)
    requires
        b is Cell,
        ends_flat(b),
        k >= 2,
        v <= 1,
        eval(subj, b, (k - 2) as nat) == Ok::<Tree, NockError>(Tree::Atom(v)),
    ensures
        eval(subj, Tree::Cell(seq![a(4), a(4)] + b->Cell_0), k) == Ok::<Tree, NockError>(
            a((2 + v) as u64),
        ),
{
    let bs = b->Cell_0;
    let u1 = Tree::Cell(seq![a(4)] + bs);
    assert(u1->Cell_0.skip(1) =~= bs);
    assert(eval(subj, u1, (k - 1) as nat) == Ok::<Tree, NockError>(a((1 + v) as u64)));
    let u = Tree::Cell(seq![a(4), a(4)] + bs);
    assert(u->Cell_0.skip(1) =~= seq![a(4)] + bs);
}

/// `[2 [1 2 3] [1 0] 4 4 b]` picks 2 or 3 out of `[2 3]`.
proof fn lemma_if_index(subj: Tree, bs: Seq<Tree>, k: nat, v: u64)
    requires
        k >= 2,
        v <= 1,
        eval(subj, Tree::Cell(seq![a(4), a(4)] + bs), (k - 2) as nat) == Ok::<Tree, NockError>(
            a((2 + v) as u64),
        ),
    ensures
        eval(subj, Tree::Cell(seq![a(2), Tree::Cell(seq![a(1), a(2), a(3)]), Tree::Cell(seq![a(1), a(0)]), a(4), a(4)] + bs), k)
            == Ok::<Tree, NockError>(a((2 + v) as u64)),
{
    let z10 = Tree::Cell(seq![a(1), a(0)]);
    let p123 = Tree::Cell(seq![a(1), a(2), a(3)]);
    let m = Tree::Cell(seq![a(0), a((2 + v) as u64)]);
    assert(cell_of(seq![a(0), a((2 + v) as u64)]) == m);
    let vv = Tree::Cell(seq![z10, a(4), a(4)] + bs);
    assert(vv->Cell_0.skip(1) =~= seq![a(4), a(4)] + bs);
    assert(eval(subj, z10, (k - 2) as nat) == Ok::<Tree, NockError>(a(0)));
    assert(eval(subj, vv, (k - 1) as nat) == Ok::<Tree, NockError>(m));
    let w = Tree::Cell(seq![a(2), p123, z10, a(4), a(4)] + bs);
    assert(w->Cell_0.skip(1) =~= seq![p123, z10, a(4), a(4)] + bs);
    assert(w->Cell_0.skip(1).skip(1) =~= seq![z10, a(4), a(4)] + bs);
    assert(p123->Cell_0.skip(1) =~= seq![a(2), a(3)]);
    assert(eval(subj, p123, (k - 1) as nat) == Ok::<Tree, NockError>(Tree::Cell(seq![a(2), a(3)])));
    assert(tree_path(((2 + v) as nat) / 2) =~= Seq::<bool>::empty());
    assert(tree_path((2 + v) as nat) =~= seq![v == 0]);
    assert(seq![v == 0].skip(1) =~= Seq::<bool>::empty());
    assert(seq![a(2), a(3)].skip(1) =~= seq![a(3)]);
    assert(m->Cell_0.skip(1) =~= seq![a((2 + v) as u64)]);
    let pick = a((2 + v) as u64);
    assert(walk(pick, Seq::<bool>::empty()) == Ok::<Tree, NockError>(pick));
    assert(walk(Tree::Cell(seq![a(2), a(3)]), seq![v == 0]) == Ok::<Tree, NockError>(pick));
    assert(slot(Tree::Cell(seq![a(2), a(3)]), (2 + v) as u64) == Ok::<Tree, NockError>(pick));
    assert(eval(Tree::Cell(seq![a(2), a(3)]), m, (k - 1) as nat) == Ok::<Tree, NockError>(
        a((2 + v) as u64),
    ));
}

/// `[2 [1 c d] [1 0] 2 [1 2 3] [1 0] 4 4 b]` gives `c` or `d` as a formula.
proof fn lemma_if_pick(subj: Tree, bs: Seq<Tree>, c: Tree, d: Tree, k: nat, v: u64)
    requires
        ends_flat(d),
        k >= 3,
        v <= 1,
        eval(subj, Tree::Cell(seq![a(2), Tree::Cell(seq![a(1), a(2), a(3)]), Tree::Cell(seq![a(1), a(0)]), a(4), a(4)] + bs), (k - 2) as nat)
            == Ok::<Tree, NockError>(a((2 + v) as u64)),
    ensures
        eval(subj, Tree::Cell(seq![a(2), Tree::Cell(seq![a(1), c] + spliced(d)), Tree::Cell(seq![a(1), a(0)]), a(2), Tree::Cell(seq![a(1), a(2), a(3)]), Tree::Cell(seq![a(1), a(0)]), a(4), a(4)] + bs), k)
            == Ok::<Tree, NockError>(if v == 0 { c } else { d }),
{
    let ds = spliced(d);
    let z10 = Tree::Cell(seq![a(1), a(0)]);
    let p123 = Tree::Cell(seq![a(1), a(2), a(3)]);
    let m = Tree::Cell(seq![a(0), a((2 + v) as u64)]);
    assert(cell_of(seq![a(0), a((2 + v) as u64)]) == m);
    let z = Tree::Cell(seq![z10, a(2), p123, z10, a(4), a(4)] + bs);
    assert(z->Cell_0.skip(1) =~= seq![a(2), p123, z10, a(4), a(4)] + bs);
    assert(eval(subj, z10, (k - 2) as nat) == Ok::<Tree, NockError>(a(0)));
    assert(eval(subj, z, (k - 1) as nat) == Ok::<Tree, NockError>(m));
    lemma_flatten_end(seq![a(1), c], d);
    let q = Tree::Cell(seq![a(1), c] + ds);
    let cd = Tree::Cell(seq![c] + ds);
    assert(q->Cell_0.skip(1) =~= seq![c] + ds);
    assert(eval(subj, q, (k - 1) as nat) == Ok::<Tree, NockError>(cd));
    assert(cd->Cell_0.skip(1) =~= ds);
    assert(tree_path(((2 + v) as nat) / 2) =~= Seq::<bool>::empty());
    assert(tree_path((2 + v) as nat) =~= seq![v == 0]);
    assert(seq![v == 0].skip(1) =~= Seq::<bool>::empty());
    assert(m->Cell_0.skip(1) =~= seq![a((2 + v) as u64)]);
    let chosen = if v == 0 {
        c
    } else {
        d
    };
    assert(walk(chosen, Seq::<bool>::empty()) == Ok::<Tree, NockError>(chosen));
    assert(walk(cd, seq![v == 0]) == Ok::<Tree, NockError>(chosen));
    assert(slot(cd, (2 + v) as u64) == Ok::<Tree, NockError>(chosen));
    assert(eval(cd, m, (k - 1) as nat) == Ok::<Tree, NockError>(chosen));
    let y = Tree::Cell(seq![a(2), q, z10, a(2), p123, z10, a(4), a(4)] + bs);
    assert(y->Cell_0.skip(1) =~= seq![q, z10, a(2), p123, z10, a(4), a(4)] + bs);
    assert(y->Cell_0.skip(1).skip(1) =~= seq![z10, a(2), p123, z10, a(4), a(4)] + bs);
}

/// Opcode 6 is if-then-else: when `b` gives 0, `[6 b c d]` gives what `c`
/// gives, and when `b` gives 1, what `d` gives. The rewrite reduces `b` eight
/// levels below the macro and the chosen formula two levels below it. The
/// operands `b` and `d` are taken as nouns that autocons leaves alone at the
/// end of a list.
pub proof fn lemma_if_then_else(subj: Tree, b: Tree, c: Tree, d: Tree, depth: nat)
    requires
        ends_flat(b),
        ends_flat(d),
        depth >= 8,
    ensures
        eval(subj, b, (depth - 8) as nat) == Ok::<Tree, NockError>(Tree::Atom(0)) ==> eval(
            subj,
            cell_of(seq![a(6), b, c, d]),
            depth,
        ) == eval(subj, c, (depth - 2) as nat),
        eval(subj, b, (depth - 8) as nat) == Ok::<Tree, NockError>(Tree::Atom(1)) ==> eval(
            subj,
            cell_of(seq![a(6), b, c, d]),
            depth,
        ) == eval(subj, d, (depth - 2) as nat),
{
    if eval(subj, b, (depth - 8) as nat) == Ok::<Tree, NockError>(Tree::Atom(0)) {
        lemma_if_chain(subj, b, c, d, depth, 0);
    }
    if eval(subj, b, (depth - 8) as nat) == Ok::<Tree, NockError>(Tree::Atom(1)) {
        lemma_if_chain(subj, b, c, d, depth, 1);
    }
}

proof fn lemma_if_chain(subj: Tree, b: Tree, c: Tree, d: Tree, depth: nat, v: u64)
    requires
        ends_flat(b),
        ends_flat(d),
        depth >= 8,
        v <= 1,
        eval(subj, b, (depth - 8) as nat) == Ok::<Tree, NockError>(Tree::Atom(v)),
    ensures
        eval(subj, cell_of(seq![a(6), b, c, d]), depth) == eval(
            subj,
            if v == 0 {
                c
            } else {
                d
            },
            (depth - 2) as nat,
        ),
{
    let bs = spliced(b);
    let ds = spliced(d);
    lemma_flatten_end(seq![a(6), b, c], d);
    let f = cell_of(seq![a(6), b, c, d]);
    assert(seq![a(6), b, c].push(d) =~= seq![a(6), b, c, d]);
    let t = seq![b, c] + ds;
    assert(f->Cell_0.skip(1) =~= t);
    assert(t.skip(2) =~= ds);
    assert(expand(6, t) == Ok::<Tree, NockError>(if_formula(b, c, d)));
    assert(eval(subj, f, depth) == eval(subj, if_formula(b, c, d), (depth - 1) as nat));
    assert(depth - 8 >= 1);
    assert(b is Cell);
    let p01 = Tree::Cell(seq![a(0), a(1)]);
    let z10 = Tree::Cell(seq![a(1), a(0)]);
    let p123 = Tree::Cell(seq![a(1), a(2), a(3)]);
    assert(cell_of(seq![a(0), a(1)]) == p01);
    assert(cell_of(seq![a(1), a(0)]) == z10);
    assert(cell_of(seq![a(1), a(2), a(3)]) == p123);
    lemma_flatten_end(seq![a(1), c], d);
    assert(seq![a(1), c].push(d) =~= seq![a(1), c, d]);
    let q = Tree::Cell(seq![a(1), c] + ds);
    let items = seq![a(2), p01, a(2), q, z10, a(2), p123, z10, a(4), a(4)];
    lemma_flatten_end(items, b);
    assert(items.push(b) =~= seq![a(2), p01, a(2), q, z10, a(2), p123, z10, a(4), a(4), b]);
    let l0 = items + bs;
    assert(if_formula(b, c, d) == Tree::Cell(l0));
    lemma_if_count(subj, b, (depth - 6) as nat, v);
    lemma_if_index(subj, bs, (depth - 4) as nat, v);
    lemma_if_pick(subj, bs, c, d, (depth - 2) as nat, v);
    assert(l0.skip(1) =~= seq![p01, a(2), q, z10, a(2), p123, z10, a(4), a(4)] + bs);
    assert(l0.skip(1).skip(1) =~= seq![a(2), q, z10, a(2), p123, z10, a(4), a(4)] + bs);
    assert(p01->Cell_0.skip(1) =~= seq![a(1)]);
    assert(tree_path(1) =~= Seq::<bool>::empty());
    assert(eval(subj, p01, (depth - 2) as nat) == Ok::<Tree, NockError>(subj));
}

/// Copies a sequence of nouns into the noun it stands for.
fn slice_to_noun(nouns: &[Noun]) -> (r: Result<Noun, NockError>)
    ensures
        outcome(r) == noun_of(views(nouns@)),
{
    if nouns.len() > 1 {
        let mut out: Vec<Noun> = Vec::new();
        for i in 0..nouns.len()
            invariant
                views(out@) =~= views(nouns@).take(i as int),
        {
            let n = nouns[i].duplicate();
            let ghost prev = out@;
            out.push(n);
            assert(views(out@) =~= views(prev).push(n@));
        }
        proof {
            Noun::lemma_cell_view(out);
            assert(views(out@) =~= views(nouns@));
        }
        Ok(Noun::Cell(out))
    } else if nouns.len() == 1 {
        Ok(nouns[0].duplicate())
    } else {
        Err(NockError::EmptyCell)
    }
}

/// Builds a cell from a candidate element list under the autocons rule.
fn cell(items: Vec<Noun>) -> (r: Noun)
    ensures
        r@ == cell_of(views(items@)),
{
    let flat = Noun::flatten(items);
    proof {
        Noun::lemma_cell_view(flat);
    }
    Noun::Cell(flat)
}

/// The path from the root to the tree address `addr`, as head (`true`) and
/// tail (`false`) steps. Address 6, the head of 3, which is the tail of 1,
/// gives `[false, true]`.
fn make_tree_path(addr: u64) -> (path: Vec<bool>)
    requires
        addr >= 2,
    ensures
        path@ == tree_path(addr as nat),
    decreases addr,
{
    if addr <= 3 {
        let mut path: Vec<bool> = Vec::new();
        path.push(addr % 2 == 0);
        proof {
            assert(tree_path((addr / 2) as nat) =~= Seq::<bool>::empty());
            assert(path@ =~= tree_path(addr as nat));
        }
        path
    } else {
        let mut path = make_tree_path(addr / 2);
        path.push(addr % 2 == 0);
        path
    }
}

/// fas looks up the tree address `addr` in `subj`: 1 is the whole noun, and
/// the head and tail of address n are 2n and 2n+1.
pub fn fas(subj: &Noun, addr: u64) -> (r: Result<Noun, NockError>)
    ensures
        outcome(r) == slot(subj@, addr),
{
    if addr == 0 {
        return Err(NockError::InvalidAddress);
    }
    if addr == 1 {
        assert(tree_path(1) =~= Seq::<bool>::empty());
        return Ok(subj.duplicate());
    }
    let path = make_tree_path(addr);
    let mut subject = subj.duplicate();
    let mut i: usize = 0;
    assert(path@.skip(0) =~= path@);
    while i < path.len()
        invariant
            0 <= i <= path@.len(),
            path@ == tree_path(addr as nat),
            slot(subj@, addr) == walk(subject@, path@.skip(i as int)),
        decreases path@.len() - i,
    {
        proof {
            assert(path@.skip(i as int).skip(1) =~= path@.skip(i as int + 1));
        }
        subject = if path[i] {
            match subject.head() {
                Ok(h) => h.duplicate(),
                Err(e) => return Err(NockError::Parse(e)),
            }
        } else {
            match subject.tail() {
                Ok(t) => match slice_to_noun(t) {
                    Ok(n) => n,
                    Err(e) => return Err(e),
                },
                Err(e) => return Err(NockError::Parse(e)),
            }
        };
        i = i + 1;
    }
    proof {
        assert(path@.skip(i as int) =~= Seq::<bool>::empty());
    }
    Ok(subject)
}

/// wut returns 1 (no) for an atom and 0 (yes) for a cell.
pub fn wut(noun: Noun) -> (r: Noun)
    ensures
        r@ == wut_spec(noun@),
{
    match noun {
        Noun::Atom(_) => atom(1),
        Noun::Cell(_) => atom(0),
    }
}

/// lus increments an atom, wrapping around at 2^64; a cell is an error.
pub fn lus(noun: Noun) -> (r: Result<Noun, NockError>)
    ensures
        outcome(r) == lus_spec(noun@),
{
    match noun {
        Noun::Atom(a) => Ok(
            atom(
                if a == u64::MAX {
                    0
                } else {
                    a + 1
                },
            ),
        ),
        Noun::Cell(_) => Err(NockError::IncrementCell),
    }
}

/// Compares `a` with the noun that `b` stands for: 0 when they are equal,
/// 1 otherwise.
fn cmp_noun(a: &Noun, b: &[Noun]) -> (r: Noun)
    ensures
        r@ == Tree::Atom(
            if same(a@, views(b@)) {
                0
            } else {
                1
            },
        ),
    decreases *a, b@,
{
    let truthy = atom(0);
    let falsy = atom(1);
    match a {
        Noun::Cell(list) => {
            proof {
                Noun::lemma_cell_view(*list);
            }
            if b.len() == 1 {
                if let Noun::Cell(inner) = &b[0] {
                    proof {
                        Noun::lemma_cell_view(*inner);
                        assert(decreases_to!(b@ => b@[0]));
                        assert(decreases_to!(b@[0] => b@[0]->Cell_0));
                        assert(decreases_to!(b@[0]->Cell_0 => b@[0]->Cell_0@));
                        assert(decreases_to!(b@ => inner@));
                        assert(views(b@)[0] == b@[0]@);
                    }
                    return cmp_noun(a, inner.as_slice());
                }
            }
            if list.len() != b.len() {
                return falsy;
            }
            for i in 0..list.len()
                invariant
                    truthy@ == Tree::Atom(0),
                    falsy@ == Tree::Atom(1),
                    *a == Noun::Cell(*list),
                    a@ == Tree::Cell(views(list@)),
                    list@.len() == b@.len(),
                    !(b@.len() == 1 && b@[0] is Cell),
                    forall|j: int|
                        0 <= j < i ==> same(#[trigger] views(list@)[j], seq![views(b@)[j]]),
            {
                let one = vstd::slice::slice_subrange(b, i, i + 1);
                proof {
                    assert(decreases_to!(*a => (*a)->Cell_0));
                    assert(decreases_to!(*a => list[i as int]));
                    assert(views(one@) =~= seq![views(b@)[i as int]]);
                }
                let r = cmp_noun(&list[i], one);
                if let Noun::Atom(1) = r {
                    proof {
                        let vl = views(list@);
                        let vb = views(b@);
                        assert(!same(vl[i as int], seq![vb[i as int]]));
                        if b@.len() == 1 {
                            assert(!(vb[0] is Cell));
                        }
                        assert(!(vb.len() == 1 && vb[0] is Cell));
                        assert(!same(Tree::Cell(vl), vb));
                    }
                    return falsy;
                }
            }
            proof {
                if b@.len() == 1 {
                    assert(!(views(b@)[0] is Cell));
                }
            }
            truthy
        },
        Noun::Atom(x) => {
            if b.len() == 1 {
                if let Noun::Atom(y) = &b[0] {
                    if *x == *y {
                        return truthy;
                    }
                }
            }
            falsy
        },
    }
}

/// tis compares the head of a cell with the rest of it: 0 when they are
/// equal, 1 otherwise.
pub fn tis(noun: Noun) -> (r: Result<Noun, NockError>)
    ensures
        outcome(r) == tis_spec(noun@),
{
    match noun {
        Noun::Atom(_) => Err(NockError::CompareAtom),
        Noun::Cell(list) => {
            proof {
                Noun::lemma_cell_view(list);
            }
            if list.len() >= 2 {
                let rest = vstd::slice::slice_subrange(list.as_slice(), 1, list.len());
                assert(views(rest@) =~= views(list@).skip(1));
                Ok(cmp_noun(&list[0], rest))
            } else {
                Err(NockError::CompareShortCell)
            }
        },
    }
}

/// Rewrites macro opcode `op` (6 to 10), given the elements after the
/// opcode, into a formula of primitive opcodes.
pub fn expand_macro(op: u64, tail: &[Noun]) -> (r: Result<Noun, NockError>)
    requires
        6 <= op <= 10,
    ensures
        outcome(r) == expand(op, views(tail@)),
{
    let ghost t = views(tail@);
    if op == 6 {
        if tail.len() < 3 {
            return Err(NockError::TooFewOperands(6));
        }
        let b = tail[0].duplicate();
        let c = tail[1].duplicate();
        let rest = vstd::slice::slice_subrange(tail, 2, tail.len());
        assert(views(rest@) =~= t.skip(2));
        let d = match slice_to_noun(rest) {
            Ok(d) => d,
            Err(e) => return Err(e),
        };
        let subject = pair(0, 1);
        let branches = triple(atom(1), c, d);
        let zero = pair(1, 0);
        let two_three = triple(atom(1), atom(2), atom(3));
        let zero_again = pair(1, 0);
        let items = vec![
            atom(2),
            subject,
            atom(2),
            branches,
            zero,
            atom(2),
            two_three,
            zero_again,
            atom(4),
            atom(4),
            b,
        ];
        assert(views(items@) =~= seq![
            a(2),
            cell_of(seq![a(0), a(1)]),
            a(2),
            cell_of(seq![a(1), t[1], rest_noun(t.skip(2))]),
            cell_of(seq![a(1), a(0)]),
            a(2),
            cell_of(seq![a(1), a(2), a(3)]),
            cell_of(seq![a(1), a(0)]),
            a(4),
            a(4),
            t[0],
        ]);
        return Ok(cell(items));
    }
    if tail.len() < 2 {
        return Err(NockError::TooFewOperands(op));
    }
    let rest = vstd::slice::slice_subrange(tail, 1, tail.len());
    assert(views(rest@) =~= t.skip(1));
    let c = match slice_to_noun(rest) {
        Ok(c) => c,
        Err(e) => return Err(e),
    };
    let ghost cv = rest_noun(t.skip(1));
    if op == 7 {
        let b = tail[0].duplicate();
        let items = vec![atom(2), b, atom(1), c];
        assert(views(items@) =~= seq![a(2), t[0], a(1), cv]);
        Ok(cell(items))
    } else if op == 8 {
        let b = tail[0].duplicate();
        let inner = triple(atom(7), pair(0, 1), b);
        let pushed = triple(inner, atom(0), atom(1));
        let items = vec![atom(7), pushed, c];
        assert(views(items@) =~= seq![
            a(7),
            cell_of(seq![cell_of(seq![a(7), cell_of(seq![a(0), a(1)]), t[0]]), a(0), a(1)]),
            cv,
        ]);
        Ok(cell(items))
    } else if op == 9 {
        let b = tail[0].duplicate();
        let items = vec![atom(7), c, atom(2), pair(0, 1), atom(0), b];
        assert(views(items@) =~= seq![a(7), cv, a(2), cell_of(seq![a(0), a(1)]), a(0), t[0]]);
        Ok(cell(items))
    } else {
        match &tail[0] {
            Noun::Atom(_) => Ok(c),
            Noun::Cell(list) => {
                proof {
                    Noun::lemma_cell_view(*list);
                }
                if list.len() <= 1 {
                    return Err(NockError::EmptyCell);
                }
                let inner = vstd::slice::slice_subrange(list.as_slice(), 1, list.len());
                assert(views(inner@) =~= views(list@).skip(1));
                let c2 = match slice_to_noun(inner) {
                    Ok(n) => n,
                    Err(e) => return Err(e),
                };
                let items = vec![atom(8), c2, atom(7), pair(0, 3), c];
                assert(views(items@) =~= seq![
                    a(8),
                    rest_noun(views(list@).skip(1)),
                    a(7),
                    cell_of(seq![a(0), a(3)]),
                    cv,
                ]);
                Ok(cell(items))
            },
        }
    }
}

/// The cell `[x y]` of two atoms.
fn pair(x: u64, y: u64) -> (r: Noun)
    ensures
        r@ == cell_of(seq![a(x), a(y)]),
{
    let items = vec![atom(x), atom(y)];
    assert(views(items@) =~= seq![a(x), a(y)]);
    cell(items)
}

/// The cell `[x y z]`, autoconsed.
fn triple(x: Noun, y: Noun, z: Noun) -> (r: Noun)
    ensures
        r@ == cell_of(seq![x@, y@, z@]),
{
    let ghost s = seq![x@, y@, z@];
    let items = vec![x, y, z];
    assert(views(items@) =~= s);
    cell(items)
}

/// Evaluates `formula` against `subj`, nesting at most `depth` deep.
///
/// A formula whose head is a cell is the pair of the evaluations of its
/// head and of its tail. Otherwise the head is an opcode:
/// * 0 looks up a slot address in the subject;
/// * 1 returns the tail unevaluated;
/// * 2 evaluates `[b c]` as `*[*[a b] *[a c]]`: the second result is a
///   formula, evaluated against the first;
/// * 3 is 0 if the evaluated tail is a cell, 1 if it is an atom;
/// * 4 increments the tail, evaluated first when it is a cell;
/// * 5 is 0 if the head of the tail equals the rest of it, 1 otherwise;
/// * 6 to 10 are macros, rewritten by `expand_macro` and evaluated.
pub fn nock_internal(subj: &Noun, formula: Noun, depth: u64) -> (r: Result<Noun, NockError>)
    ensures
        outcome(r) == eval(subj@, formula@, depth as nat),
    decreases depth,
{
    if depth == 0 {
        return Err(NockError::TooDeep);
    }
    let next = depth - 1;
    if let Noun::Atom(_) = formula {
        return Err(NockError::InfiniteLoop);
    }
    let ghost l = formula@->Cell_0;
    let head = match formula.head() {
        Ok(h) => h,
        Err(e) => return Err(NockError::Parse(e)),
    };
    match head {
        Noun::Atom(op) => {
            let op = *op;
            if op > 10 {
                return Err(NockError::UnknownInstruction(op));
            }
            let tail = match formula.tail() {
                Ok(t) => t,
                Err(e) => return Err(NockError::Parse(e)),
            };
            if op >= 6 {
                return match expand_macro(op, tail) {
                    Ok(f) => nock_internal(subj, f, next),
                    Err(e) => Err(e),
                };
            }
            if op == 2 {
                if tail.len() < 2 {
                    return Err(NockError::TooFewOperands(2));
                }
                let rest = vstd::slice::slice_subrange(tail, 1, tail.len());
                assert(views(rest@) =~= l.skip(1).skip(1));
                let formula_formula = match slice_to_noun(rest) {
                    Ok(n) => n,
                    Err(e) => return Err(e),
                };
                let new_subject = match nock_internal(subj, tail[0].duplicate(), next) {
                    Ok(n) => n,
                    Err(e) => return Err(e),
                };
                let new_formula = match nock_internal(subj, formula_formula, next) {
                    Ok(n) => n,
                    Err(e) => return Err(e),
                };
                return nock_internal(&new_subject, new_formula, next);
            }
            let tail_noun = match slice_to_noun(tail) {
                Ok(n) => n,
                Err(e) => return Err(e),
            };
            if op == 0 {
                match tail_noun {
                    Noun::Atom(b) => fas(subj, b),
                    Noun::Cell(_) => Err(NockError::NotASlot),
                }
            } else if op == 1 {
                Ok(tail_noun)
            } else if op == 3 {
                match nock_internal(subj, tail_noun, next) {
                    Ok(n) => Ok(wut(n)),
                    Err(e) => Err(e),
                }
            } else if op == 4 {
                if let Noun::Cell(_) = tail_noun {
                    match nock_internal(subj, tail_noun, next) {
                        Ok(n) => lus(n),
                        Err(e) => Err(e),
                    }
                } else {
                    lus(tail_noun)
                }
            } else {
                tis(tail_noun)
            }
        },
        Noun::Cell(_) => {
            let head_noun = match nock_internal(subj, head.duplicate(), next) {
                Ok(n) => n,
                Err(e) => return Err(e),
            };
            let tail = match formula.tail() {
                Ok(t) => t,
                Err(e) => return Err(NockError::Parse(e)),
            };
            let tail_formula = match slice_to_noun(tail) {
                Ok(n) => n,
                Err(e) => return Err(e),
            };
            let tail_noun = match nock_internal(subj, tail_formula, next) {
                Ok(n) => n,
                Err(e) => return Err(e),
            };
            let ghost hv = head_noun@;
            let ghost tv = tail_noun@;
            let items = vec![head_noun, tail_noun];
            assert(views(items@) =~= seq![hv, tv]);
            Ok(cell(items))
        },
    }
}

/// compute evaluates a Nock expression: an atom is a formula against the
/// subject 0, and a cell is `[subject formula]`.
pub fn compute(noun: Noun) -> (r: Result<Noun, NockError>)
    ensures
        outcome(r) == compute_spec(noun@),
{
    match &noun {
        Noun::Atom(_) => nock_internal(&Noun::Atom(0), noun, MAX_DEPTH),
        Noun::Cell(list) => {
            if list.len() >= 2 {
                let subject = match noun.head() {
                    Ok(h) => h,
                    Err(e) => return Err(NockError::Parse(e)),
                };
                let tail = match noun.tail() {
                    Ok(t) => t,
                    Err(e) => return Err(NockError::Parse(e)),
                };
                let formula = match slice_to_noun(tail) {
                    Ok(n) => n,
                    Err(e) => return Err(e),
                };
                nock_internal(subject, formula, MAX_DEPTH)
            } else {
                Err(NockError::InvalidExpression)
            }
        },
    }
}

} // verus!
