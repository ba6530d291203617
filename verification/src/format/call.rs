//! Formatting of call statements over a lossless syntax tree.
use vstd::prelude::*;

use super::comments::format_inline_comment;
use super::comments::format_preceding_comments;
use super::comments::preceding_comments;
use super::comments::trivia_well_formed;
use super::comments::SyntaxElement;
use super::comments::NEWLINE;
use super::expr::expr_text;
use super::expr::find_operand;
use super::expr::first_operand;
use super::expr::full_text;
use super::expr::tree_well_formed;
use super::expr::write_expr;
use super::expr::write_full_text;
use super::import::find_kind;
use super::import::first_of_kind;
use super::import::inline_after;
use super::import::space_or_indent_text;
use super::state::repeat;
use super::state::State;
use super::state::INDENT;
use super::state::SPACE;
use super::syntax::SyntaxKind;
use crate::text::push_char;

verus! {

/// The index of the first element of kind `k` in `cs` from `from` on, or
/// `cs.len()`.
pub open spec fn next_of_kind(cs: Seq<SyntaxElement>, k: SyntaxKind, from: int) -> int
    decreases cs.len() - from,
{
    if from < 0 || from >= cs.len() {
        cs.len() as int
    } else if cs[from].spec_kind() == k {
        from
    } else {
        next_of_kind(cs, k, from + 1)
    }
}

/// The number of elements of kind `k` among the first `n` of `cs`.
pub open spec fn count_kind(cs: Seq<SyntaxElement>, k: SyntaxKind, n: int) -> nat
    decreases n,
{
    if n <= 0 || n > cs.len() {
        0
    } else {
        count_kind(cs, k, n - 1) + if cs[n - 1].spec_kind() == k {
            1nat
        } else {
            0nat
        }
    }
}

/// An alias or `after` clause `cs[j]` whose keyword is of kind `kw`: the
/// comments before it, the keyword and the name, each after a space (or an
/// indentation where comments interrupted the line), and its inline
/// comment.
#[verifier::opaque]
pub open spec fn clause_text(
    cs: Seq<SyntaxElement>,
    j: int,
    kw: SyntaxKind,
    level: nat,
    interrupted: bool,
) -> (Seq<char>, bool) {
    let ac = cs[j].spec_children();
    let ki = first_of_kind(ac, kw);
    let ni = first_of_kind(ac, SyntaxKind::Ident);
    let (p1, b1) = preceding_comments(cs, j, level, interrupted, true);
    let s1 = space_or_indent_text(level, b1);
    let (i1, b2) = inline_after(ac, ki, false, true);
    let (p2, b3) = preceding_comments(ac, ni, level, b2, true);
    let s2 = space_or_indent_text(level, b3);
    let (i2, b4) = inline_after(cs, j, false, true);
    (p1 + s1 + ac[ki].spec_text() + i1 + p2 + s2 + ac[ni].spec_text() + i2, b4)
}

/// A call input `cs[j]`: its name and inline comment, then, when it has an
/// expression, `=` and the expression, each after the comments that belong
/// to it and a space (or an indentation where comments interrupted the
/// line); and its own inline comment.
#[verifier::opaque]
pub open spec fn input_item_text(cs: Seq<SyntaxElement>, j: int, level: nat, interrupted: bool) -> (
    Seq<char>,
    bool,
) {
    let ic = cs[j].spec_children();
    let ni = first_of_kind(ic, SyntaxKind::Ident);
    let (i1, b1) = inline_after(ic, ni, interrupted, true);
    let (rest, b2) = input_value_text(ic, level, b1);
    let (i3, b3) = inline_after(cs, j, b2, true);
    (ic[ni].spec_text() + i1 + rest + i3, b3)
}

/// The `=` and expression of a call input with children `ic`, when it has
/// an expression.
#[verifier::opaque]
pub open spec fn input_value_text(ic: Seq<SyntaxElement>, level: nat, interrupted: bool) -> (
    Seq<char>,
    bool,
) {
    let xi = first_operand(ic);
    if xi < ic.len() {
        let (a, c2) = assignment_text(ic, level, interrupted);
        let (p3, c3) = preceding_comments(ic, xi, level, c2, true);
        let s3 = space_or_indent_text(level, c3);
        let (x, c4) = expr_text(ic[xi], level, false);
        (a + p3 + s3 + x, c4)
    } else {
        (Seq::empty(), interrupted)
    }
}

/// The `=` of a call input with children `ic`, after the comments that
/// belong to it and a space (or an indentation), with its inline comment.
#[verifier::opaque]
pub open spec fn assignment_text(ic: Seq<SyntaxElement>, level: nat, interrupted: bool) -> (
    Seq<char>,
    bool,
) {
    let ei = first_of_kind(ic, SyntaxKind::Assignment);
    let (p2, c1) = preceding_comments(ic, ei, level, interrupted, true);
    let s2 = space_or_indent_text(level, c1);
    let (i2, c2) = inline_after(ic, ei, false, true);
    (p2 + s2 + ic[ei].spec_text() + i2, c2)
}

/// One input `cs[j]` of a call with several, at `level`, pairing with the
/// first comma from `cursor` on; the result also gives where the next
/// comma is looked for.
#[verifier::opaque]
pub open spec fn input_line(
    cs: Seq<SyntaxElement>,
    j: int,
    level: nat,
    interrupted: bool,
    cursor: int,
) -> (Seq<char>, bool, int) {
    let nl = if !interrupted {
        NEWLINE@
    } else {
        Seq::empty()
    };
    let (p, b1) = preceding_comments(cs, j, level, false, false);
    let ind = repeat(INDENT@, if b1 { level + 1 } else { level });
    let (it, b2) = input_item_text(cs, j, level, b1);
    let ci = next_of_kind(cs, SyntaxKind::Comma, cursor);
    if ci < cs.len() {
        let (p2, b3) = preceding_comments(cs, ci, level, b2, true);
        let (i2, b4) = inline_after(cs, ci, b3, true);
        (nl + p + ind + it + p2 + seq![','] + i2, b4, ci + 1)
    } else {
        (nl + p + ind + it + seq![','], b2, cursor)
    }
}

/// The inputs among the first `n` children of a call with several inputs,
/// one per line at `level`.
pub open spec fn input_lines(
    cs: Seq<SyntaxElement>,
    n: int,
    level: nat,
    interrupted: bool,
) -> (Seq<char>, bool, int)
    decreases n,
{
    if n <= 0 || n > cs.len() {
        (Seq::empty(), interrupted, 0)
    } else {
        let (t, b, c) = input_lines(cs, n - 1, level, interrupted);
        if cs[n - 1].spec_kind() == SyntaxKind::CallInputItemNode {
            let (t2, b2, c2) = input_line(cs, n - 1, level, b, c);
            (t + t2, b2, c2)
        } else {
            (t, b, c)
        }
    }
}

/// The `after` clauses among the first `n` children of a call, in order.
pub open spec fn after_clauses(cs: Seq<SyntaxElement>, n: int, level: nat, interrupted: bool) -> (
    Seq<char>,
    bool,
)
    decreases n,
{
    if n <= 0 || n > cs.len() {
        (Seq::empty(), interrupted)
    } else {
        let (t, b) = after_clauses(cs, n - 1, level, interrupted);
        if cs[n - 1].spec_kind() == SyntaxKind::CallAfterNode {
            let (t2, b2) = clause_text(cs, n - 1, SyntaxKind::AfterKeyword, level, b);
            (t + t2, b2)
        } else {
            (t, b)
        }
    }
}

/// The braces of a call with inputs: `{`, `input`, `:`, then a single input
/// on the same line, or several inputs one per line one level deeper, and
/// `}`; each part after the comments that belong to it.
#[verifier::opaque]
pub open spec fn call_inputs_text(cs: Seq<SyntaxElement>, level: nat, interrupted: bool) -> (
    Seq<char>,
    bool,
) {
    let (head, x6) = call_inputs_head(cs, level, interrupted);
    let (rest, b) = if count_kind(cs, SyntaxKind::CallInputItemNode, cs.len() as int) == 1 {
        single_input_text(cs, level, x6)
    } else {
        input_block_text(cs, level, x6)
    };
    (head + rest, b)
}

/// The only input of a call and `}`, on the line of `:`.
#[verifier::opaque]
pub open spec fn single_input_text(cs: Seq<SyntaxElement>, level: nat, interrupted: bool) -> (
    Seq<char>,
    bool,
) {
    let cb = first_of_kind(cs, SyntaxKind::CloseBrace);
    let in0 = first_of_kind(cs, SyntaxKind::CallInputItemNode);
    let (p4, x7) = preceding_comments(cs, in0, level, interrupted, true);
    let s4 = space_or_indent_text(level, x7);
    let (it, x8) = input_item_text(cs, in0, level, false);
    let (p5, x9) = preceding_comments(cs, cb, level, x8, true);
    let s5 = space_or_indent_text(level, x9);
    (p4 + s4 + it + p5 + s5 + cs[cb].spec_text(), false)
}

/// The inputs of a call with several, one per line one level deeper than
/// `level`, and `}` on a line of its own.
#[verifier::opaque]
pub open spec fn input_block_text(cs: Seq<SyntaxElement>, level: nat, interrupted: bool) -> (
    Seq<char>,
    bool,
) {
    let cb = first_of_kind(cs, SyntaxKind::CloseBrace);
    let (lines, y1, _) = input_lines(cs, cs.len() as int, level + 1, false);
    let nl = if !y1 {
        NEWLINE@
    } else {
        Seq::empty()
    };
    let (p6, y2) = preceding_comments(cs, cb, level, false, false);
    let ind = repeat(INDENT@, if y2 { level + 1 } else { level });
    (lines + nl + p6 + ind + cs[cb].spec_text(), y2)
}

/// `{`, `input` and `:` of a call with inputs, each after the comments that
/// belong to it and with its inline comment; `{` follows a space, or starts
/// an indented line where comments interrupted the line.
#[verifier::opaque]
pub open spec fn call_inputs_head(cs: Seq<SyntaxElement>, level: nat, interrupted: bool) -> (
    Seq<char>,
    bool,
) {
    let (h1, x2) = open_brace_text(cs, level, interrupted);
    let (h2, x6) = input_colon_text(cs, level, x2);
    (h1 + h2, x6)
}

/// `{` of a call with inputs, after the comments that belong to it, with its
/// inline comment; it follows a space, or starts an indented line where
/// comments interrupted the line.
#[verifier::opaque]
pub open spec fn open_brace_text(cs: Seq<SyntaxElement>, level: nat, interrupted: bool) -> (
    Seq<char>,
    bool,
) {
    let ob = first_of_kind(cs, SyntaxKind::OpenBrace);
    let (p1, x1) = preceding_comments(cs, ob, level, interrupted, true);
    let o1 = if x1 {
        repeat(INDENT@, level)
    } else {
        SPACE@
    };
    let (i1, x2) = inline_after(cs, ob, false, true);
    (p1 + o1 + cs[ob].spec_text() + i1, x2)
}

/// `input` and `:` of a call with inputs, each after the comments that
/// belong to it and with its inline comment.
#[verifier::opaque]
pub open spec fn input_colon_text(cs: Seq<SyntaxElement>, level: nat, interrupted: bool) -> (
    Seq<char>,
    bool,
) {
    let ik = first_of_kind(cs, SyntaxKind::InputKeyword);
    let co = first_of_kind(cs, SyntaxKind::Colon);
    let (p2, x3) = preceding_comments(cs, ik, level, interrupted, true);
    let s2 = space_or_indent_text(level, x3);
    let (i2, x4) = inline_after(cs, ik, false, true);
    let (p3, x5) = preceding_comments(cs, co, level, x4, true);
    let o3 = if x5 {
        repeat(INDENT@, level + 1)
    } else {
        Seq::empty()
    };
    let (i3, x6) = inline_after(cs, co, x5, true);
    (p2 + s2 + cs[ik].spec_text() + i2 + p3 + o3 + cs[co].spec_text() + i3, x6)
}

/// A call statement `sibs[i]` as written at `level` from a line that is
/// `interrupted`: its preceding comments; on an indented line the `call`
/// keyword, the target as it stands, the alias and `after` clauses, and
/// the inputs in braces when it has any; and its inline comment or a line
/// feed; with whether the line is interrupted afterwards.
#[verifier::opaque]
pub open spec fn call_statement_text(
    sibs: Seq<SyntaxElement>,
    i: int,
    level: nat,
    interrupted: bool,
) -> (Seq<char>, bool) {
    let cs = sibs[i].spec_children();
    let ai = first_of_kind(cs, SyntaxKind::CallAliasNode);
    let (t1, b4) = call_head_text(sibs, i, level, interrupted);
    let (t5, b5) = if ai < cs.len() {
        clause_text(cs, ai, SyntaxKind::AsKeyword, level, b4)
    } else {
        (Seq::empty(), b4)
    };
    let (t6, b6) = after_clauses(cs, cs.len() as int, level, b5);
    let (t7, b7) = if count_kind(cs, SyntaxKind::CallInputItemNode, cs.len() as int) > 0 {
        call_inputs_text(cs, level, b6)
    } else {
        (Seq::empty(), b6)
    };
    let (t8, b8) = inline_after(sibs, i, b7, false);
    (t1 + t5 + t6 + t7 + t8, b8)
}

/// The start of a call statement `sibs[i]`: its preceding comments, then on
/// an indented line the `call` keyword and the target as it stands, each
/// with the comments that belong to it.
#[verifier::opaque]
pub open spec fn call_head_text(
    sibs: Seq<SyntaxElement>,
    i: int,
    level: nat,
    interrupted: bool,
) -> (Seq<char>, bool) {
    let cs = sibs[i].spec_children();
    let ck = first_of_kind(cs, SyntaxKind::CallKeyword);
    let ti = first_of_kind(cs, SyntaxKind::CallTargetNode);
    let (t1, b1) = preceding_comments(sibs, i, level, interrupted, false);
    let ind = repeat(INDENT@, if b1 { level + 1 } else { level });
    let (t2, b2) = inline_after(cs, ck, b1, true);
    let (t3, b3) = preceding_comments(cs, ti, level, b2, true);
    let s3 = space_or_indent_text(level, b3);
    let (t4, b4) = inline_after(cs, ti, false, true);
    (t1 + ind + cs[ck].spec_text() + t2 + t3 + s3 + full_text(cs[ti]) + t4, b4)
}

/// Whether `cs[j]` is an alias or `after` clause as a parser makes it.
pub open spec fn clause_well_formed(cs: Seq<SyntaxElement>, j: int, kw: SyntaxKind) -> bool {
    let ac = cs[j].spec_children();
    &&& trivia_well_formed(ac)
    &&& first_of_kind(ac, kw) < ac.len()
    &&& first_of_kind(ac, SyntaxKind::Ident) < ac.len()
}

/// Whether `cs[j]` is a call input as a parser makes it.
pub open spec fn input_well_formed(cs: Seq<SyntaxElement>, j: int) -> bool {
    let ic = cs[j].spec_children();
    &&& trivia_well_formed(ic)
    &&& first_of_kind(ic, SyntaxKind::Ident) < ic.len()
    &&& first_operand(ic) < ic.len() ==> {
        &&& first_of_kind(ic, SyntaxKind::Assignment) < ic.len()
        &&& tree_well_formed(ic[first_operand(ic)])
    }
}

/// Whether `sibs[i]` is a call statement as a parser makes it: it has the
/// `call` keyword and a target, well-formed clauses and inputs, and the
/// braces, `input` keyword and colon when it has inputs.
pub open spec fn call_well_formed(sibs: Seq<SyntaxElement>, i: int) -> bool {
    let cs = sibs[i].spec_children();
    &&& 0 <= i < sibs.len()
    &&& sibs[i].spec_kind() == SyntaxKind::CallStatementNode
    &&& trivia_well_formed(sibs)
    &&& trivia_well_formed(cs)
    &&& first_of_kind(cs, SyntaxKind::CallKeyword) < cs.len()
    &&& first_of_kind(cs, SyntaxKind::CallTargetNode) < cs.len()
    &&& forall|j: int|
        0 <= j < cs.len() && (#[trigger] cs[j]).spec_kind() == SyntaxKind::CallAliasNode
            ==> clause_well_formed(cs, j, SyntaxKind::AsKeyword)
    &&& forall|j: int|
        0 <= j < cs.len() && (#[trigger] cs[j]).spec_kind() == SyntaxKind::CallAfterNode
            ==> clause_well_formed(cs, j, SyntaxKind::AfterKeyword)
    &&& forall|j: int|
        0 <= j < cs.len() && (#[trigger] cs[j]).spec_kind() == SyntaxKind::CallInputItemNode
            ==> input_well_formed(cs, j)
    &&& count_kind(cs, SyntaxKind::CallInputItemNode, cs.len() as int) > 0 ==> {
        &&& first_of_kind(cs, SyntaxKind::OpenBrace) < cs.len()
        &&& first_of_kind(cs, SyntaxKind::InputKeyword) < cs.len()
        &&& first_of_kind(cs, SyntaxKind::Colon) < cs.len()
        &&& first_of_kind(cs, SyntaxKind::CloseBrace) < cs.len()
    }
}

/// Finds the first element of kind `k` from `from` on.
fn next_kind(cs: &[SyntaxElement], k: SyntaxKind, from: usize) -> (i: usize)
    requires
        from <= cs@.len(),
    ensures
        i == next_of_kind(cs@, k, from as int),
{
    let mut i = from;
    while i < cs.len() && cs[i].kind() != k
        invariant
            from <= i <= cs@.len(),
            next_of_kind(cs@, k, i as int) == next_of_kind(cs@, k, from as int),
        decreases cs@.len() - i,
    {
        i = i + 1;
    }
    i
}

/// Counts the elements of kind `k`.
fn count_of_kind(cs: &[SyntaxElement], k: SyntaxKind) -> (n: usize)
    ensures
        n == count_kind(cs@, k, cs@.len() as int),
{
    let mut n: usize = 0;
    let mut i: usize = 0;
    while i < cs.len()
        invariant
            i <= cs@.len(),
            n <= i,
            n == count_kind(cs@, k, i as int),
        decreases cs@.len() - i,
    {
        if cs[i].kind() == k {
            n = n + 1;
        }
        i = i + 1;
    }
    n
}

/// Writes an alias or `after` clause.
fn write_clause(
    cs: &[SyntaxElement],
    j: usize,
    kw: SyntaxKind,
    buffer: &mut String,
    state: &mut State,
)
    requires
        j < cs@.len(),
        trivia_well_formed(cs@),
        clause_well_formed(cs@, j as int, kw),
        old(state).level() < usize::MAX,
    ensures
        final(buffer)@ == old(buffer)@ + clause_text(
            cs@,
            j as int,
            kw,
            old(state).level() as nat,
            old(state).is_interrupted(),
        ).0,
        final(state).is_interrupted() == clause_text(
            cs@,
            j as int,
            kw,
            old(state).level() as nat,
            old(state).is_interrupted(),
        ).1,
        final(state).level() == old(state).level(),
{
    let ghost out0 = buffer@;
    let ghost level = state.level() as nat;
    let ghost b0 = state.is_interrupted();
    let ac = cs[j].children();
    let ki = find_kind(ac, kw);
    let ni = find_kind(ac, SyntaxKind::Ident);
    format_preceding_comments(cs, j, buffer, state, true);
    state.space_or_indent(buffer);
    buffer.append(ac[ki].text());
    format_inline_comment(ac, ki, buffer, state, true);
    format_preceding_comments(ac, ni, buffer, state, true);
    state.space_or_indent(buffer);
    buffer.append(ac[ni].text());
    format_inline_comment(cs, j, buffer, state, true);
    proof {
        reveal(clause_text);
        assert(buffer@ =~= out0 + clause_text(cs@, j as int, kw, level, b0).0);
    }
}

/// Writes the `=` of a call input.
fn write_assignment(ic: &[SyntaxElement], buffer: &mut String, state: &mut State)
    requires
        trivia_well_formed(ic@),
        first_of_kind(ic@, SyntaxKind::Assignment) < ic@.len(),
        old(state).level() < usize::MAX,
    ensures
        final(buffer)@ == old(buffer)@ + assignment_text(
            ic@,
            old(state).level() as nat,
            old(state).is_interrupted(),
        ).0,
        final(state).is_interrupted() == assignment_text(
            ic@,
            old(state).level() as nat,
            old(state).is_interrupted(),
        ).1,
        final(state).level() == old(state).level(),
{
    let ghost out0 = buffer@;
    let ghost level = state.level() as nat;
    let ghost b0 = state.is_interrupted();
    let ei = find_kind(ic, SyntaxKind::Assignment);
    format_preceding_comments(ic, ei, buffer, state, true);
    state.space_or_indent(buffer);
    buffer.append(ic[ei].text());
    format_inline_comment(ic, ei, buffer, state, true);
    proof {
        reveal(assignment_text);
        assert(buffer@ =~= out0 + assignment_text(ic@, level, b0).0);
    }
}

/// Writes the `=` and expression of a call input, when it has one.
fn write_input_value(ic: &[SyntaxElement], buffer: &mut String, state: &mut State)
    requires
        trivia_well_formed(ic@),
        first_operand(ic@) < ic@.len() ==> {
            &&& first_of_kind(ic@, SyntaxKind::Assignment) < ic@.len()
            &&& tree_well_formed(ic@[first_operand(ic@)])
        },
        old(state).level() < usize::MAX,
    ensures
        final(buffer)@ == old(buffer)@ + input_value_text(
            ic@,
            old(state).level() as nat,
            old(state).is_interrupted(),
        ).0,
        final(state).is_interrupted() == input_value_text(
            ic@,
            old(state).level() as nat,
            old(state).is_interrupted(),
        ).1,
        final(state).level() == old(state).level(),
{
    let ghost out0 = buffer@;
    let ghost level = state.level() as nat;
    let ghost b0 = state.is_interrupted();
    let xi = find_operand(ic);
    if xi < ic.len() {
        write_assignment(ic, buffer, state);
        format_preceding_comments(ic, xi, buffer, state, true);
        state.space_or_indent(buffer);
        write_expr(&ic[xi], buffer, state);
    }
    proof {
        reveal(input_value_text);
        assert(buffer@ =~= out0 + input_value_text(ic@, level, b0).0);
    }
}

/// Writes a call input.
fn write_input_item(cs: &[SyntaxElement], j: usize, buffer: &mut String, state: &mut State)
    requires
        j < cs@.len(),
        trivia_well_formed(cs@),
        input_well_formed(cs@, j as int),
        old(state).level() < usize::MAX,
    ensures
        final(buffer)@ == old(buffer)@ + input_item_text(
            cs@,
            j as int,
            old(state).level() as nat,
            old(state).is_interrupted(),
        ).0,
        final(state).is_interrupted() == input_item_text(
            cs@,
            j as int,
            old(state).level() as nat,
            old(state).is_interrupted(),
        ).1,
        final(state).level() == old(state).level(),
{
    let ghost out0 = buffer@;
    let ghost level = state.level() as nat;
    let ghost b0 = state.is_interrupted();
    let ic = cs[j].children();
    let ni = find_kind(ic, SyntaxKind::Ident);
    buffer.append(ic[ni].text());
    format_inline_comment(ic, ni, buffer, state, true);
    write_input_value(ic, buffer, state);
    format_inline_comment(cs, j, buffer, state, true);
    proof {
        reveal(input_item_text);
        assert(buffer@ =~= out0 + input_item_text(cs@, j as int, level, b0).0);
    }
}

/// Writes one input of a call with several, pairing it with the first comma
/// from `cursor` on; returns where the next comma is looked for.
fn write_input_line(
    cs: &[SyntaxElement],
    j: usize,
    cursor: usize,
    buffer: &mut String,
    state: &mut State,
) -> (r: usize)
    requires
        j < cs@.len(),
        cursor <= cs@.len(),
        trivia_well_formed(cs@),
        input_well_formed(cs@, j as int),
        old(state).level() + 1 < usize::MAX,
    ensures
        ({
            let res = input_line(
                cs@,
                j as int,
                old(state).level() as nat,
                old(state).is_interrupted(),
                cursor as int,
            );
            &&& final(buffer)@ == old(buffer)@ + res.0
            &&& final(state).is_interrupted() == res.1
            &&& r == res.2
        }),
        r <= cs@.len(),
        final(state).level() == old(state).level(),
{
    let ghost out0 = buffer@;
    let ghost level = state.level() as nat;
    let ghost b0 = state.is_interrupted();
    if !state.interrupted() {
        buffer.append(NEWLINE);
    } else {
        state.reset_interrupted();
    }
    format_preceding_comments(cs, j, buffer, state, false);
    state.indent(buffer);
    write_input_item(cs, j, buffer, state);
    let ci = next_kind(cs, SyntaxKind::Comma, cursor);
    let r = if ci < cs.len() {
        format_preceding_comments(cs, ci, buffer, state, true);
        push_char(buffer, ',');
        format_inline_comment(cs, ci, buffer, state, true);
        ci + 1
    } else {
        push_char(buffer, ',');
        cursor
    };
    proof {
        reveal(input_line);
        assert(buffer@ =~= out0 + input_line(cs@, j as int, level, b0, cursor as int).0);
    }
    r
}

/// Writes the inputs of a call with several, one per line.
fn write_input_lines(cs: &[SyntaxElement], buffer: &mut String, state: &mut State)
    requires
        trivia_well_formed(cs@),
        forall|j: int|
            0 <= j < cs@.len() && (#[trigger] cs@[j]).spec_kind() == SyntaxKind::CallInputItemNode
                ==> input_well_formed(cs@, j),
        old(state).level() + 1 < usize::MAX,
    ensures
        final(buffer)@ == old(buffer)@ + input_lines(
            cs@,
            cs@.len() as int,
            old(state).level() as nat,
            old(state).is_interrupted(),
        ).0,
        final(state).is_interrupted() == input_lines(
            cs@,
            cs@.len() as int,
            old(state).level() as nat,
            old(state).is_interrupted(),
        ).1,
        final(state).level() == old(state).level(),
{
    let ghost out0 = buffer@;
    let ghost level = state.level() as nat;
    let ghost b0 = state.is_interrupted();
    let mut cursor: usize = 0;
    let mut j: usize = 0;
    while j < cs.len()
        invariant
            j <= cs@.len(),
            trivia_well_formed(cs@),
            forall|j: int|
                0 <= j < cs@.len() && (#[trigger] cs@[j]).spec_kind()
                    == SyntaxKind::CallInputItemNode ==> input_well_formed(cs@, j),
            state.level() == level,
            level + 1 < usize::MAX,
            cursor <= cs@.len(),
            buffer@ == out0 + input_lines(cs@, j as int, level, b0).0,
            state.is_interrupted() == input_lines(cs@, j as int, level, b0).1,
            cursor == input_lines(cs@, j as int, level, b0).2,
        decreases cs@.len() - j,
    {
        if cs[j].kind() == SyntaxKind::CallInputItemNode {
            cursor = write_input_line(cs, j, cursor, buffer, state);
        }
        j = j + 1;
    }
}

/// Writes the `after` clauses of a call, in order.
fn write_after_clauses(cs: &[SyntaxElement], buffer: &mut String, state: &mut State)
    requires
        trivia_well_formed(cs@),
        forall|j: int|
            0 <= j < cs@.len() && (#[trigger] cs@[j]).spec_kind() == SyntaxKind::CallAfterNode
                ==> clause_well_formed(cs@, j, SyntaxKind::AfterKeyword),
        old(state).level() < usize::MAX,
    ensures
        final(buffer)@ == old(buffer)@ + after_clauses(
            cs@,
            cs@.len() as int,
            old(state).level() as nat,
            old(state).is_interrupted(),
        ).0,
        final(state).is_interrupted() == after_clauses(
            cs@,
            cs@.len() as int,
            old(state).level() as nat,
            old(state).is_interrupted(),
        ).1,
        final(state).level() == old(state).level(),
{
    let ghost out0 = buffer@;
    let ghost level = state.level() as nat;
    let ghost b0 = state.is_interrupted();
    let mut j: usize = 0;
    while j < cs.len()
        invariant
            j <= cs@.len(),
            trivia_well_formed(cs@),
            forall|j: int|
                0 <= j < cs@.len() && (#[trigger] cs@[j]).spec_kind() == SyntaxKind::CallAfterNode
                    ==> clause_well_formed(cs@, j, SyntaxKind::AfterKeyword),
            state.level() == level,
            level < usize::MAX,
            buffer@ == out0 + after_clauses(cs@, j as int, level, b0).0,
            state.is_interrupted() == after_clauses(cs@, j as int, level, b0).1,
        decreases cs@.len() - j,
    {
        if cs[j].kind() == SyntaxKind::CallAfterNode {
            write_clause(cs, j, SyntaxKind::AfterKeyword, buffer, state);
        }
        j = j + 1;
    }
}

/// Writes `{` of a call with inputs.
fn write_open_brace(cs: &[SyntaxElement], buffer: &mut String, state: &mut State)
    requires
        trivia_well_formed(cs@),
        first_of_kind(cs@, SyntaxKind::OpenBrace) < cs@.len(),
        old(state).level() < usize::MAX,
    ensures
        final(buffer)@ == old(buffer)@ + open_brace_text(
            cs@,
            old(state).level() as nat,
            old(state).is_interrupted(),
        ).0,
        final(state).is_interrupted() == open_brace_text(
            cs@,
            old(state).level() as nat,
            old(state).is_interrupted(),
        ).1,
        final(state).level() == old(state).level(),
{
    let ghost out0 = buffer@;
    let ghost level = state.level() as nat;
    let ghost b0 = state.is_interrupted();
    let ob = find_kind(cs, SyntaxKind::OpenBrace);
    format_preceding_comments(cs, ob, buffer, state, true);
    if state.interrupted() {
        state.reset_interrupted();
        state.indent(buffer);
    } else {
        buffer.append(SPACE);
    }
    buffer.append(cs[ob].text());
    format_inline_comment(cs, ob, buffer, state, true);
    proof {
        reveal(open_brace_text);
        assert(buffer@ =~= out0 + open_brace_text(cs@, level, b0).0);
    }
}

/// Writes `input` and `:` of a call with inputs.
fn write_input_colon(cs: &[SyntaxElement], buffer: &mut String, state: &mut State)
    requires
        trivia_well_formed(cs@),
        first_of_kind(cs@, SyntaxKind::InputKeyword) < cs@.len(),
        first_of_kind(cs@, SyntaxKind::Colon) < cs@.len(),
        old(state).level() < usize::MAX,
    ensures
        final(buffer)@ == old(buffer)@ + input_colon_text(
            cs@,
            old(state).level() as nat,
            old(state).is_interrupted(),
        ).0,
        final(state).is_interrupted() == input_colon_text(
            cs@,
            old(state).level() as nat,
            old(state).is_interrupted(),
        ).1,
        final(state).level() == old(state).level(),
{
    let ghost out0 = buffer@;
    let ghost level = state.level() as nat;
    let ghost b0 = state.is_interrupted();
    let ik = find_kind(cs, SyntaxKind::InputKeyword);
    format_preceding_comments(cs, ik, buffer, state, true);
    state.space_or_indent(buffer);
    buffer.append(cs[ik].text());
    format_inline_comment(cs, ik, buffer, state, true);
    let co = find_kind(cs, SyntaxKind::Colon);
    format_preceding_comments(cs, co, buffer, state, true);
    if state.interrupted() {
        state.indent(buffer);
    }
    buffer.append(cs[co].text());
    format_inline_comment(cs, co, buffer, state, true);
    proof {
        reveal(input_colon_text);
        assert(buffer@ =~= out0 + input_colon_text(cs@, level, b0).0);
    }
}

/// Writes `{`, `input` and `:` of a call with inputs.
fn write_call_inputs_head(cs: &[SyntaxElement], buffer: &mut String, state: &mut State)
    requires
        trivia_well_formed(cs@),
        first_of_kind(cs@, SyntaxKind::OpenBrace) < cs@.len(),
        first_of_kind(cs@, SyntaxKind::InputKeyword) < cs@.len(),
        first_of_kind(cs@, SyntaxKind::Colon) < cs@.len(),
        old(state).level() < usize::MAX,
    ensures
        final(buffer)@ == old(buffer)@ + call_inputs_head(
            cs@,
            old(state).level() as nat,
            old(state).is_interrupted(),
        ).0,
        final(state).is_interrupted() == call_inputs_head(
            cs@,
            old(state).level() as nat,
            old(state).is_interrupted(),
        ).1,
        final(state).level() == old(state).level(),
{
    let ghost out0 = buffer@;
    let ghost level = state.level() as nat;
    let ghost b0 = state.is_interrupted();
    write_open_brace(cs, buffer, state);
    write_input_colon(cs, buffer, state);
    proof {
        reveal(call_inputs_head);
        assert(buffer@ =~= out0 + call_inputs_head(cs@, level, b0).0);
    }
}

/// Writes the only input of a call and `}`.
fn write_single_input(cs: &[SyntaxElement], buffer: &mut String, state: &mut State)
    requires
        trivia_well_formed(cs@),
        forall|j: int|
            0 <= j < cs@.len() && (#[trigger] cs@[j]).spec_kind() == SyntaxKind::CallInputItemNode
                ==> input_well_formed(cs@, j),
        count_kind(cs@, SyntaxKind::CallInputItemNode, cs@.len() as int) == 1,
        first_of_kind(cs@, SyntaxKind::CloseBrace) < cs@.len(),
        old(state).level() < usize::MAX,
    ensures
        final(buffer)@ == old(buffer)@ + single_input_text(
            cs@,
            old(state).level() as nat,
            old(state).is_interrupted(),
        ).0,
        final(state).is_interrupted() == single_input_text(
            cs@,
            old(state).level() as nat,
            old(state).is_interrupted(),
        ).1,
        final(state).level() == old(state).level(),
{
    let ghost out0 = buffer@;
    let ghost level = state.level() as nat;
    let ghost b0 = state.is_interrupted();
    let cb = find_kind(cs, SyntaxKind::CloseBrace);
    let in0 = find_kind(cs, SyntaxKind::CallInputItemNode);
    proof {
        lemma_first_counted(cs@, SyntaxKind::CallInputItemNode, cs@.len() as int);
    }
    format_preceding_comments(cs, in0, buffer, state, true);
    state.space_or_indent(buffer);
    write_input_item(cs, in0, buffer, state);
    format_preceding_comments(cs, cb, buffer, state, true);
    state.space_or_indent(buffer);
    buffer.append(cs[cb].text());
    proof {
        reveal(single_input_text);
        assert(buffer@ =~= out0 + single_input_text(cs@, level, b0).0);
    }
}

/// Writes the inputs of a call with several, one per line, and `}`.
fn write_input_block(cs: &[SyntaxElement], buffer: &mut String, state: &mut State)
    requires
        trivia_well_formed(cs@),
        forall|j: int|
            0 <= j < cs@.len() && (#[trigger] cs@[j]).spec_kind() == SyntaxKind::CallInputItemNode
                ==> input_well_formed(cs@, j),
        first_of_kind(cs@, SyntaxKind::CloseBrace) < cs@.len(),
        old(state).level() + 2 < usize::MAX,
    ensures
        final(buffer)@ == old(buffer)@ + input_block_text(
            cs@,
            old(state).level() as nat,
            old(state).is_interrupted(),
        ).0,
        final(state).is_interrupted() == input_block_text(
            cs@,
            old(state).level() as nat,
            old(state).is_interrupted(),
        ).1,
        final(state).level() == old(state).level(),
{
    let ghost out0 = buffer@;
    let ghost level = state.level() as nat;
    let ghost b0 = state.is_interrupted();
    let cb = find_kind(cs, SyntaxKind::CloseBrace);
    state.increment_indent();
    write_input_lines(cs, buffer, state);
    if !state.interrupted() {
        buffer.append(NEWLINE);
    }
    state.decrement_indent();
    format_preceding_comments(cs, cb, buffer, state, false);
    state.indent(buffer);
    buffer.append(cs[cb].text());
    proof {
        reveal(input_block_text);
        assert(buffer@ =~= out0 + input_block_text(cs@, level, b0).0);
    }
}

/// Writes the braces of a call with inputs and the inputs between them.
fn write_call_inputs(cs: &[SyntaxElement], buffer: &mut String, state: &mut State)
    requires
        trivia_well_formed(cs@),
        forall|j: int|
            0 <= j < cs@.len() && (#[trigger] cs@[j]).spec_kind() == SyntaxKind::CallInputItemNode
                ==> input_well_formed(cs@, j),
        first_of_kind(cs@, SyntaxKind::OpenBrace) < cs@.len(),
        first_of_kind(cs@, SyntaxKind::InputKeyword) < cs@.len(),
        first_of_kind(cs@, SyntaxKind::Colon) < cs@.len(),
        first_of_kind(cs@, SyntaxKind::CloseBrace) < cs@.len(),
        old(state).level() + 2 < usize::MAX,
    ensures
        final(buffer)@ == old(buffer)@ + call_inputs_text(
            cs@,
            old(state).level() as nat,
            old(state).is_interrupted(),
        ).0,
        final(state).is_interrupted() == call_inputs_text(
            cs@,
            old(state).level() as nat,
            old(state).is_interrupted(),
        ).1,
        final(state).level() == old(state).level(),
{
    let ghost out0 = buffer@;
    let ghost level = state.level() as nat;
    let ghost b0 = state.is_interrupted();
    write_call_inputs_head(cs, buffer, state);
    if count_of_kind(cs, SyntaxKind::CallInputItemNode) == 1 {
        write_single_input(cs, buffer, state);
    } else {
        write_input_block(cs, buffer, state);
    }
    proof {
        reveal(call_inputs_text);
        assert(buffer@ =~= out0 + call_inputs_text(cs@, level, b0).0);
    }
}

/// Writes the start of a call statement.
fn write_call_head(sibs: &[SyntaxElement], i: usize, buffer: &mut String, state: &mut State)
    requires
        call_well_formed(sibs@, i as int),
        old(state).level() < usize::MAX,
    ensures
        final(buffer)@ == old(buffer)@ + call_head_text(
            sibs@,
            i as int,
            old(state).level() as nat,
            old(state).is_interrupted(),
        ).0,
        final(state).is_interrupted() == call_head_text(
            sibs@,
            i as int,
            old(state).level() as nat,
            old(state).is_interrupted(),
        ).1,
        final(state).level() == old(state).level(),
{
    let ghost out0 = buffer@;
    let ghost level = state.level() as nat;
    let ghost b0 = state.is_interrupted();
    format_preceding_comments(sibs, i, buffer, state, false);
    let cs = sibs[i].children();
    let ck = find_kind(cs, SyntaxKind::CallKeyword);
    state.indent(buffer);
    buffer.append(cs[ck].text());
    format_inline_comment(cs, ck, buffer, state, true);
    let ti = find_kind(cs, SyntaxKind::CallTargetNode);
    format_preceding_comments(cs, ti, buffer, state, true);
    state.space_or_indent(buffer);
    write_full_text(&cs[ti], buffer);
    format_inline_comment(cs, ti, buffer, state, true);
    proof {
        reveal(call_head_text);
        assert(buffer@ =~= out0 + call_head_text(sibs@, i as int, level, b0).0);
    }
}

/// A call statement among its siblings: `siblings[index]`.
pub struct CallStatement<'a> {
    /// The elements among which the statement stands.
    pub siblings: &'a [SyntaxElement],
    /// The position of the statement among them.
    pub index: usize,
}

impl<'a> CallStatement<'a> {
    /// Writes the call statement: its preceding comments; on an indented
    /// line the `call` keyword, its target, its alias and `after` clauses;
    /// its inputs in braces (a single one on the same line, several one per
    /// line, each followed by a comma); and its inline comment or a line
    /// feed.
    pub fn format(&self, buffer: &mut String, state: &mut State)
        requires
            call_well_formed(self.siblings@, self.index as int),
            old(state).level() + 2 < usize::MAX,
        ensures
            final(buffer)@ == old(buffer)@ + call_statement_text(
                self.siblings@,
                self.index as int,
                old(state).level() as nat,
                old(state).is_interrupted(),
            ).0,
            final(state).is_interrupted() == call_statement_text(
                self.siblings@,
                self.index as int,
                old(state).level() as nat,
                old(state).is_interrupted(),
            ).1,
            final(state).level() == old(state).level(),
    {
        let sibs = self.siblings;
        let i = self.index;
        let ghost out0 = buffer@;
        let ghost level = state.level() as nat;
        let ghost b0 = state.is_interrupted();
        write_call_head(sibs, i, buffer, state);
        let cs = sibs[i].children();
        let ai = find_kind(cs, SyntaxKind::CallAliasNode);
        if ai < cs.len() {
            write_clause(cs, ai, SyntaxKind::AsKeyword, buffer, state);
        }
        write_after_clauses(cs, buffer, state);
        if count_of_kind(cs, SyntaxKind::CallInputItemNode) > 0 {
            write_call_inputs(cs, buffer, state);
        }
        format_inline_comment(sibs, i, buffer, state, false);
        proof {
            reveal(call_statement_text);
            assert(buffer@ =~= out0 + call_statement_text(sibs@, i as int, level, b0).0);
        }
    }
}

/// When some element of kind `k` is counted, the first of them is one.
proof fn lemma_first_counted(cs: Seq<SyntaxElement>, k: SyntaxKind, n: int)
    requires
        0 <= n <= cs.len(),
        count_kind(cs, k, n) > 0,
    ensures
        first_of_kind(cs, k) < n,
        cs[first_of_kind(cs, k)].spec_kind() == k,
    decreases n,
{
    if count_kind(cs, k, n - 1) > 0 {
        lemma_first_counted(cs, k, n - 1);
    } else {
        lemma_count_zero(cs, k, n - 1);
        lemma_first_of_kind_at(cs, k, n - 1);
    }
}

/// When no element of kind `k` is counted among the first `j`, none of
/// them has that kind.
proof fn lemma_count_zero(cs: Seq<SyntaxElement>, k: SyntaxKind, j: int)
    requires
        0 <= j <= cs.len(),
        count_kind(cs, k, j) == 0,
    ensures
        forall|i: int| 0 <= i < j ==> (#[trigger] cs[i]).spec_kind() != k,
    decreases j,
{
    if j > 0 {
        lemma_count_zero(cs, k, j - 1);
    }
}

/// The first element of kind `k` is at `j` when `cs[j]` has that kind and
/// none before it has.
proof fn lemma_first_of_kind_at(cs: Seq<SyntaxElement>, k: SyntaxKind, j: int)
    requires
        0 <= j < cs.len(),
        cs[j].spec_kind() == k,
        forall|i: int| 0 <= i < j ==> (#[trigger] cs[i]).spec_kind() != k,
    ensures
        first_of_kind(cs, k) == j,
    decreases j,
{
    if j > 0 {
        assert(cs[0].spec_kind() != k);
        let rest = cs.drop_first();
        assert forall|i: int| 0 <= i < j - 1 implies (#[trigger] rest[i]).spec_kind() != k by {
            assert(rest[i] == cs[i + 1]);
        }
        lemma_first_of_kind_at(rest, k, j - 1);
    }
}
} // verus!
