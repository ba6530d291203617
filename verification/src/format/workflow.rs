//! Formatting of workflow statements over a lossless syntax tree: calls,
//! bound declarations, and scatter and conditional blocks with the
//! statements they hold.
use vstd::prelude::*;

use super::call::call_statement_text;
use super::call::call_well_formed;
use super::call::CallStatement;
use super::comments::format_inline_comment;
use super::comments::format_preceding_comments;
use super::comments::preceding_comments;
use super::comments::trivia_well_formed;
use super::comments::SyntaxElement;
use super::expr::expr_text;
use super::expr::find_operand;
use super::expr::first_operand;
use super::expr::full_text;
use super::expr::lemma_child_decreases;
use super::expr::tree_well_formed;
use super::expr::write_expr;
use super::expr::write_full_text;
use super::import::find_kind;
use super::import::first_of_kind;
use super::import::inline_after;
use super::import::space_or_indent_text;
use super::state::repeat;
use super::state::State;
use super::state::INDENT;
use super::state::SPACE;
use super::syntax::SyntaxKind;

verus! {

/// The indentation written at `level` on a line that is `interrupted`.
pub open spec fn indent_text(level: nat, interrupted: bool) -> Seq<char> {
    repeat(INDENT@, if interrupted { level + 1 } else { level })
}

/// The number of elements in the tree of `e`.
pub open spec fn size(e: SyntaxElement) -> nat
    decreases e, 1int, 0int,
{
    1 + children_size(e, e.spec_children().len() as int)
}

/// The number of elements in the trees of the first `n` children of `e`.
pub open spec fn children_size(e: SyntaxElement, n: int) -> nat
    decreases e, 0int, n,
{
    if n <= 0 || n > e.spec_children().len() {
        0
    } else {
        proof {
            lemma_child_decreases(e, n - 1);
        }
        children_size(e, n - 1) + size(e.spec_children()[n - 1])
    }
}

/// Whether a kind is that of a workflow statement.
pub open spec fn is_statement_kind(k: SyntaxKind) -> bool {
    ||| k == SyntaxKind::CallStatementNode
    ||| k == SyntaxKind::BoundDeclNode
    ||| k == SyntaxKind::ScatterStatementNode
    ||| k == SyntaxKind::ConditionalStatementNode
}

/// The first node among `cs` from `from` on, or `cs.len()`.
pub open spec fn next_node(cs: Seq<SyntaxElement>, from: int) -> int
    decreases cs.len() - from,
{
    if from < 0 || from >= cs.len() {
        cs.len() as int
    } else if cs[from] is Node {
        from
    } else {
        next_node(cs, from + 1)
    }
}

/// A bound declaration `sibs[i]`: its preceding comments; on an indented
/// line its type as it stands, its name, `=` and its expression, each after
/// the comments that belong to it; and its inline comment or a line feed.
#[verifier::opaque]
pub open spec fn decl_text(sibs: Seq<SyntaxElement>, i: int, level: nat, interrupted: bool) -> (
    Seq<char>,
    bool,
) {
    let cs = sibs[i].spec_children();
    let (h, b4) = decl_head(sibs, i, level, interrupted);
    let ti = next_node(cs, 0);
    let xi = next_node(cs, ti + 1);
    let (v, b8) = if xi < cs.len() {
        let (a, b6) = decl_assignment(cs, level, b4);
        let (p, b7) = preceding_comments(cs, xi, level, b6, true);
        let s = space_or_indent_text(level, b7);
        let (x, b8) = expr_text(cs[xi], level, false);
        (a + p + s + x, b8)
    } else {
        (Seq::empty(), b4)
    };
    let (t, b9) = inline_after(sibs, i, b8, false);
    (h + v + t, b9)
}

/// The start of a bound declaration: its preceding comments, its type on
/// an indented line and its name.
#[verifier::opaque]
pub open spec fn decl_head(sibs: Seq<SyntaxElement>, i: int, level: nat, interrupted: bool) -> (
    Seq<char>,
    bool,
) {
    let cs = sibs[i].spec_children();
    let ti = next_node(cs, 0);
    let ni = first_of_kind(cs, SyntaxKind::Ident);
    let (t1, b1) = preceding_comments(sibs, i, level, interrupted, false);
    let (t2, b2) = inline_after(cs, ti, b1, true);
    let (t3, b3) = preceding_comments(cs, ni, level, b2, true);
    let s3 = space_or_indent_text(level, b3);
    let (t4, b4) = inline_after(cs, ni, false, true);
    (t1 + indent_text(level, b1) + full_text(cs[ti]) + t2 + t3 + s3 + cs[ni].spec_text() + t4, b4)
}

/// The `=` of a bound declaration.
#[verifier::opaque]
pub open spec fn decl_assignment(cs: Seq<SyntaxElement>, level: nat, interrupted: bool) -> (
    Seq<char>,
    bool,
) {
    let ei = first_of_kind(cs, SyntaxKind::Assignment);
    let (p, b1) = preceding_comments(cs, ei, level, interrupted, true);
    let s = space_or_indent_text(level, b1);
    let (t, b2) = inline_after(cs, ei, false, true);
    (p + s + seq!['='] + t, b2)
}

/// Whether a bound declaration is as a parser makes it.
pub open spec fn decl_well_formed(sibs: Seq<SyntaxElement>, i: int) -> bool {
    let cs = sibs[i].spec_children();
    let ti = next_node(cs, 0);
    let xi = next_node(cs, ti + 1);
    &&& trivia_well_formed(cs)
    &&& ti < cs.len()
    &&& first_of_kind(cs, SyntaxKind::Ident) < cs.len()
    &&& xi < cs.len() ==> first_of_kind(cs, SyntaxKind::Assignment) < cs.len() && tree_well_formed(
        cs[xi],
    )
}

/// The keyword line of a block `sibs[i]`: its preceding comments, then on
/// an indented line its keyword of kind `kw` with its inline comment.
#[verifier::opaque]
pub open spec fn keyword_line(
    sibs: Seq<SyntaxElement>,
    i: int,
    kw: SyntaxKind,
    level: nat,
    interrupted: bool,
) -> (Seq<char>, bool) {
    let cs = sibs[i].spec_children();
    let ki = first_of_kind(cs, kw);
    let (t1, b1) = preceding_comments(sibs, i, level, interrupted, false);
    let (t2, b2) = inline_after(cs, ki, b1, true);
    (t1 + indent_text(level, b1) + cs[ki].spec_text() + t2, b2)
}

/// An opening token `cs[first of kind k]` (a parenthesis or a brace): after
/// the comments that belong to it, on an indented line where they
/// interrupted the line and otherwise after a space; with its inline
/// comment, which interrupts the line when `interrupting` is set.
#[verifier::opaque]
pub open spec fn opening_text(
    cs: Seq<SyntaxElement>,
    k: SyntaxKind,
    level: nat,
    interrupted: bool,
    interrupting: bool,
) -> (Seq<char>, bool) {
    let oi = first_of_kind(cs, k);
    let (p, b1) = preceding_comments(cs, oi, level, interrupted, true);
    let o = if b1 {
        repeat(INDENT@, level)
    } else {
        SPACE@
    };
    let (t, b2) = inline_after(cs, oi, false, interrupting);
    (p + o + cs[oi].spec_text() + t, b2)
}

/// The part of a scatter between its parentheses, and `)`: the variable,
/// `in`, the expression, each after the comments that belong to it.
#[verifier::opaque]
pub open spec fn scatter_clause(cs: Seq<SyntaxElement>, level: nat, interrupted: bool) -> (
    Seq<char>,
    bool,
) {
    let xi = first_operand(cs);
    let (a, b4) = scatter_variable(cs, level, interrupted);
    let (t5, b5) = preceding_comments(cs, xi, level, b4, true);
    let s5 = space_or_indent_text(level, b5);
    let (x, b6) = expr_text(cs[xi], level, false);
    let (c, b9) = closing_paren(cs, xi, level, b6, true);
    (a + t5 + s5 + x + c, b9)
}

/// The variable and `in` of a scatter, each after the comments that belong
/// to it and with its inline comment.
#[verifier::opaque]
pub open spec fn scatter_variable(cs: Seq<SyntaxElement>, level: nat, interrupted: bool) -> (
    Seq<char>,
    bool,
) {
    let vi = first_of_kind(cs, SyntaxKind::Ident);
    let ii = first_of_kind(cs, SyntaxKind::InKeyword);
    let (t1, b1) = preceding_comments(cs, vi, level, interrupted, true);
    let o1 = if b1 {
        indent_text(level, true)
    } else {
        Seq::empty()
    };
    let (t2, b2) = inline_after(cs, vi, b1, true);
    let (t3, b3) = preceding_comments(cs, ii, level, b2, true);
    let s3 = space_or_indent_text(level, b3);
    let (t4, b4) = inline_after(cs, ii, false, true);
    (t1 + o1 + cs[vi].spec_text() + t2 + t3 + s3 + cs[ii].spec_text() + t4, b4)
}

/// The inline comment of the expression `cs[xi]` and `)` after the comments
/// that belong to it, on an indented line where they interrupted the line;
/// with its inline comment when `with_inline` is set.
#[verifier::opaque]
pub open spec fn closing_paren(
    cs: Seq<SyntaxElement>,
    xi: int,
    level: nat,
    interrupted: bool,
    with_inline: bool,
) -> (Seq<char>, bool) {
    let ci = first_of_kind(cs, SyntaxKind::CloseParen);
    let (t6, b7) = inline_after(cs, xi, interrupted, true);
    let (t7, b8) = preceding_comments(cs, ci, level, b7, true);
    let o8 = if b8 {
        indent_text(level, true)
    } else {
        Seq::empty()
    };
    let (t8, b9) = if with_inline {
        inline_after(cs, ci, b8, true)
    } else {
        (Seq::empty(), b8)
    };
    (t6 + t7 + o8 + cs[ci].spec_text() + t8, b9)
}

/// The part of a conditional between its parentheses, and `)`: its
/// expression, one level deeper on lines of its own when the expression
/// spans lines (the deeper level stays), and `)`; with the level afterwards.
#[verifier::opaque]
pub open spec fn conditional_clause(cs: Seq<SyntaxElement>, level: nat, interrupted: bool, ml: bool) -> (
    Seq<char>,
    bool,
    nat,
) {
    let xi = first_operand(cs);
    let l1 = if ml {
        level + 1
    } else {
        level
    };
    let (t1, b1) = conditional_lead(cs, l1, if ml { false } else { interrupted }, ml);
    let (x, b2) = expr_text(cs[xi], l1, b1);
    let (t2, b4) = conditional_tail(cs, l1, b1, b2, ml);
    (t1 + x + t2, b4, l1)
}

/// The comments before a conditional's expression, then an indentation
/// where they interrupted the line or where the expression spans lines.
#[verifier::opaque]
pub open spec fn conditional_lead(cs: Seq<SyntaxElement>, level: nat, interrupted: bool, ml: bool) -> (
    Seq<char>,
    bool,
) {
    let xi = first_operand(cs);
    let (t1, b1) = preceding_comments(cs, xi, level, interrupted, !ml);
    let o1 = if b1 || ml {
        indent_text(level, b1)
    } else {
        Seq::empty()
    };
    (t1 + o1, b1)
}

/// After a conditional's expression: its inline comment and `)` after the
/// comments that belong to it, on an indented line unless everything stayed
/// on the line of `(`.
#[verifier::opaque]
pub open spec fn conditional_tail(
    cs: Seq<SyntaxElement>,
    level: nat,
    lead_interrupted: bool,
    interrupted: bool,
    ml: bool,
) -> (Seq<char>, bool) {
    let xi = first_operand(cs);
    let ci = first_of_kind(cs, SyntaxKind::CloseParen);
    let (t2, b3) = inline_after(cs, xi, interrupted, !ml);
    let same_line = !(lead_interrupted || ml) && !b3;
    let (t3, b4) = preceding_comments(cs, ci, level, b3, !ml);
    let o4 = if b4 || !same_line {
        indent_text(level, b4)
    } else {
        Seq::empty()
    };
    (t2 + t3 + o4 + cs[ci].spec_text(), b4)
}

/// A workflow statement `sibs[i]` as written at `level` from a line that is
/// `interrupted`, with whether the line is interrupted afterwards and the
/// level afterwards.
pub open spec fn statement_text(sibs: Seq<SyntaxElement>, i: int, level: nat, interrupted: bool) -> (
    Seq<char>,
    bool,
    nat,
)
    decreases sibs[i], 3int, 0int,
{
    let kind = sibs[i].spec_kind();
    if kind == SyntaxKind::CallStatementNode {
        let (t, b) = call_statement_text(sibs, i, level, interrupted);
        (t, b, level)
    } else if kind == SyntaxKind::BoundDeclNode {
        let (t, b) = decl_text(sibs, i, level, interrupted);
        (t, b, level)
    } else if kind == SyntaxKind::ScatterStatementNode || kind
        == SyntaxKind::ConditionalStatementNode {
        block_text(sibs, i, level, interrupted)
    } else {
        (Seq::empty(), interrupted, level)
    }
}

/// The start of a scatter or conditional block, up to `{` and its inline
/// comment or a line feed, with the level afterwards.
pub open spec fn block_head(sibs: Seq<SyntaxElement>, i: int, level: nat, interrupted: bool) -> (
    Seq<char>,
    bool,
    nat,
) {
    let cs = sibs[i].spec_children();
    if sibs[i].spec_kind() == SyntaxKind::ScatterStatementNode {
        let (t1, b1) = keyword_line(sibs, i, SyntaxKind::ScatterKeyword, level, interrupted);
        let (t2, b2) = opening_text(cs, SyntaxKind::OpenParen, level, b1, true);
        let (t3, b3) = scatter_clause(cs, level, b2);
        let (t4, b4) = opening_text(cs, SyntaxKind::OpenBrace, level, b3, false);
        (t1 + t2 + t3 + t4, b4, level)
    } else {
        let ml = count_newlines_text(full_text(cs[first_operand(cs)])) > 0;
        let (t1, b1) = keyword_line(sibs, i, SyntaxKind::IfKeyword, level, interrupted);
        let (t2, b2) = opening_text(cs, SyntaxKind::OpenParen, level, b1, !ml);
        let (t3, b3, l3) = conditional_clause(cs, level, b2, ml);
        let (t4, b4) = opening_text(cs, SyntaxKind::OpenBrace, l3, b3, false);
        (t1 + t2 + t3 + t4, b4, l3)
    }
}

/// A scatter or conditional block `sibs[i]`: its head, the statements it
/// holds one level deeper, and `}` on an indented line with the inline
/// comment of the block or a line feed.
pub open spec fn block_text(sibs: Seq<SyntaxElement>, i: int, level: nat, interrupted: bool) -> (
    Seq<char>,
    bool,
    nat,
)
    decreases sibs[i], 2int, 0int,
{
    let e = sibs[i];
    let cs = e.spec_children();
    let (h, hb, hl) = block_head(sibs, i, level, interrupted);
    let (body, bb, bl) = body_text(e, cs.len() as int, hl + 1, false);
    let l2 = if bl == 0 {
        0
    } else {
        (bl - 1) as nat
    };
    let (c, cb) = block_close(sibs, i, l2);
    (h + body + c, cb, l2)
}

/// The end of a block `sibs[i]` at `level`: `}` after the comments that
/// belong to it, on an indented line, with the inline comment of the block
/// or a line feed.
#[verifier::opaque]
pub open spec fn block_close(sibs: Seq<SyntaxElement>, i: int, level: nat) -> (Seq<char>, bool) {
    let cs = sibs[i].spec_children();
    let ci = first_of_kind(cs, SyntaxKind::CloseBrace);
    let (p, pb) = preceding_comments(cs, ci, level, false, false);
    let (t, tb) = inline_after(sibs, i, pb, false);
    (p + indent_text(level, pb) + cs[ci].spec_text() + t, tb)
}

/// The statements among the first `n` children of `e`, written in turn.
pub open spec fn body_text(e: SyntaxElement, n: int, level: nat, interrupted: bool) -> (
    Seq<char>,
    bool,
    nat,
)
    decreases e, 1int, n,
{
    if n <= 0 || n > e.spec_children().len() {
        (Seq::empty(), interrupted, level)
    } else {
        let (t, b, l) = body_text(e, n - 1, level, interrupted);
        if is_statement_kind(e.spec_children()[n - 1].spec_kind()) {
            proof {
                lemma_child_decreases(e, n - 1);
            }
            let (t2, b2, l2) = statement_text(e.spec_children(), n - 1, l, b);
            (t + t2, b2, l2)
        } else {
            (t, b, l)
        }
    }
}

/// The number of line feeds in `t`.
pub open spec fn count_newlines_text(t: Seq<char>) -> nat {
    super::comments::count_newlines(t)
}

/// Whether a scatter or conditional block `sibs[i]` has what its head
/// needs.
pub open spec fn block_well_formed(sibs: Seq<SyntaxElement>, i: int) -> bool {
    let cs = sibs[i].spec_children();
    let kind = sibs[i].spec_kind();
    &&& trivia_well_formed(cs)
    &&& first_of_kind(cs, SyntaxKind::OpenParen) < cs.len()
    &&& first_of_kind(cs, SyntaxKind::CloseParen) < cs.len()
    &&& first_of_kind(cs, SyntaxKind::OpenBrace) < cs.len()
    &&& first_of_kind(cs, SyntaxKind::CloseBrace) < cs.len()
    &&& first_operand(cs) < cs.len()
    &&& tree_well_formed(cs[first_operand(cs)])
    &&& kind == SyntaxKind::ScatterStatementNode ==> {
        &&& first_of_kind(cs, SyntaxKind::ScatterKeyword) < cs.len()
        &&& first_of_kind(cs, SyntaxKind::Ident) < cs.len()
        &&& first_of_kind(cs, SyntaxKind::InKeyword) < cs.len()
    }
    &&& kind == SyntaxKind::ConditionalStatementNode ==> first_of_kind(cs, SyntaxKind::IfKeyword)
        < cs.len()
}

/// Whether the workflow statement `sibs[i]` and the statements it holds
/// are as a parser makes them.
pub open spec fn statement_well_formed(sibs: Seq<SyntaxElement>, i: int) -> bool
    decreases sibs[i], 1int, 0int,
{
    let e = sibs[i];
    let kind = e.spec_kind();
    &&& 0 <= i < sibs.len()
    &&& trivia_well_formed(sibs)
    &&& kind == SyntaxKind::CallStatementNode ==> call_well_formed(sibs, i)
    &&& kind == SyntaxKind::BoundDeclNode ==> decl_well_formed(sibs, i)
    &&& (kind == SyntaxKind::ScatterStatementNode || kind == SyntaxKind::ConditionalStatementNode)
        ==> block_well_formed(sibs, i) && body_well_formed(e, e.spec_children().len() as int)
}

/// Whether the statements among the first `n` children of `e` are well
/// formed.
pub open spec fn body_well_formed(e: SyntaxElement, n: int) -> bool
    decreases e, 0int, n,
{
    if n <= 0 || n > e.spec_children().len() {
        true
    } else {
        proof {
            lemma_child_decreases(e, n - 1);
        }
        body_well_formed(e, n - 1) && (is_statement_kind(e.spec_children()[n - 1].spec_kind())
            ==> statement_well_formed(e.spec_children(), n - 1))
    }
}

/// Every statement among the children of a well-formed body is well formed.
proof fn lemma_body_well_formed(e: SyntaxElement, n: int, k: int)
    requires
        body_well_formed(e, n),
        0 <= k < n <= e.spec_children().len(),
        is_statement_kind(e.spec_children()[k].spec_kind()),
    ensures
        statement_well_formed(e.spec_children(), k),
    decreases n,
{
    if k < n - 1 {
        lemma_body_well_formed(e, n - 1, k);
    }
}

/// The children of `e` take no more room than all of them.
proof fn lemma_children_size_le(e: SyntaxElement, n: int, m: int)
    requires
        0 <= n <= m <= e.spec_children().len(),
    ensures
        children_size(e, n) <= children_size(e, m),
    decreases m - n,
{
    if n < m {
        lemma_children_size_le(e, n, m - 1);
    }
}

/// Finds the first node from `from` on.
fn find_node(cs: &[SyntaxElement], from: usize) -> (i: usize)
    requires
        from <= cs@.len(),
    ensures
        i == next_node(cs@, from as int),
        i <= cs@.len(),
        i < cs@.len() ==> cs@[i as int] is Node,
{
    let mut i = from;
    while i < cs.len() && !is_node(&cs[i])
        invariant
            from <= i <= cs@.len(),
            next_node(cs@, i as int) == next_node(cs@, from as int),
        decreases cs@.len() - i,
    {
        i = i + 1;
    }
    i
}

/// Whether an element is a node.
fn is_node(e: &SyntaxElement) -> (b: bool)
    ensures
        b == (*e is Node),
{
    match e {
        SyntaxElement::Node(_, _) => true,
        SyntaxElement::Token(_, _) => false,
    }
}

/// Writes the start of a bound declaration.
fn write_decl_head(sibs: &[SyntaxElement], i: usize, buffer: &mut String, state: &mut State)
    requires
        i < sibs@.len(),
        trivia_well_formed(sibs@),
        decl_well_formed(sibs@, i as int),
        old(state).level() < usize::MAX,
    ensures
        final(buffer)@ == old(buffer)@ + decl_head(
            sibs@,
            i as int,
            old(state).level() as nat,
            old(state).is_interrupted(),
        ).0,
        final(state).is_interrupted() == decl_head(
            sibs@,
            i as int,
            old(state).level() as nat,
            old(state).is_interrupted(),
        ).1,
        final(state).level() == old(state).level(),
{
    let ghost out0 = buffer@;
    let ghost level = state.level() as nat;
    let ghost b0 = state.is_interrupted();
    let cs = sibs[i].children();
    let ti = find_node(cs, 0);
    let ni = find_kind(cs, SyntaxKind::Ident);
    format_preceding_comments(sibs, i, buffer, state, false);
    state.indent(buffer);
    write_full_text(&cs[ti], buffer);
    format_inline_comment(cs, ti, buffer, state, true);
    format_preceding_comments(cs, ni, buffer, state, true);
    state.space_or_indent(buffer);
    buffer.append(cs[ni].text());
    format_inline_comment(cs, ni, buffer, state, true);
    proof {
        reveal(decl_head);
        assert(buffer@ =~= out0 + decl_head(sibs@, i as int, level, b0).0);
    }
}

/// Writes the `=` of a bound declaration.
fn write_decl_assignment(cs: &[SyntaxElement], buffer: &mut String, state: &mut State)
    requires
        trivia_well_formed(cs@),
        first_of_kind(cs@, SyntaxKind::Assignment) < cs@.len(),
        old(state).level() < usize::MAX,
    ensures
        final(buffer)@ == old(buffer)@ + decl_assignment(
            cs@,
            old(state).level() as nat,
            old(state).is_interrupted(),
        ).0,
        final(state).is_interrupted() == decl_assignment(
            cs@,
            old(state).level() as nat,
            old(state).is_interrupted(),
        ).1,
        final(state).level() == old(state).level(),
{
    let ghost out0 = buffer@;
    let ghost level = state.level() as nat;
    let ghost b0 = state.is_interrupted();
    let ei = find_kind(cs, SyntaxKind::Assignment);
    format_preceding_comments(cs, ei, buffer, state, true);
    state.space_or_indent(buffer);
    crate::text::push_char(buffer, '=');
    format_inline_comment(cs, ei, buffer, state, true);
    proof {
        reveal(decl_assignment);
        assert(buffer@ =~= out0 + decl_assignment(cs@, level, b0).0);
    }
}

/// Writes a bound declaration.
fn write_decl(sibs: &[SyntaxElement], i: usize, buffer: &mut String, state: &mut State)
    requires
        i < sibs@.len(),
        trivia_well_formed(sibs@),
        decl_well_formed(sibs@, i as int),
        old(state).level() < usize::MAX,
    ensures
        final(buffer)@ == old(buffer)@ + decl_text(
            sibs@,
            i as int,
            old(state).level() as nat,
            old(state).is_interrupted(),
        ).0,
        final(state).is_interrupted() == decl_text(
            sibs@,
            i as int,
            old(state).level() as nat,
            old(state).is_interrupted(),
        ).1,
        final(state).level() == old(state).level(),
{
    let ghost out0 = buffer@;
    let ghost level = state.level() as nat;
    let ghost b0 = state.is_interrupted();
    write_decl_head(sibs, i, buffer, state);
    let cs = sibs[i].children();
    let ti = find_node(cs, 0);
    let xi = find_node(cs, ti + 1);
    if xi < cs.len() {
        write_decl_assignment(cs, buffer, state);
        format_preceding_comments(cs, xi, buffer, state, true);
        state.space_or_indent(buffer);
        write_expr(&cs[xi], buffer, state);
    }
    format_inline_comment(sibs, i, buffer, state, false);
    proof {
        reveal(decl_text);
        assert(buffer@ =~= out0 + decl_text(sibs@, i as int, level, b0).0);
    }
}

/// Writes the keyword line of a block.
fn write_keyword_line(
    sibs: &[SyntaxElement],
    i: usize,
    kw: SyntaxKind,
    buffer: &mut String,
    state: &mut State,
)
    requires
        i < sibs@.len(),
        trivia_well_formed(sibs@),
        trivia_well_formed(sibs@[i as int].spec_children()),
        first_of_kind(sibs@[i as int].spec_children(), kw) < sibs@[i as int].spec_children().len(),
        old(state).level() < usize::MAX,
    ensures
        final(buffer)@ == old(buffer)@ + keyword_line(
            sibs@,
            i as int,
            kw,
            old(state).level() as nat,
            old(state).is_interrupted(),
        ).0,
        final(state).is_interrupted() == keyword_line(
            sibs@,
            i as int,
            kw,
            old(state).level() as nat,
            old(state).is_interrupted(),
        ).1,
        final(state).level() == old(state).level(),
{
    let ghost out0 = buffer@;
    let ghost level = state.level() as nat;
    let ghost b0 = state.is_interrupted();
    let cs = sibs[i].children();
    let ki = find_kind(cs, kw);
    format_preceding_comments(sibs, i, buffer, state, false);
    state.indent(buffer);
    buffer.append(cs[ki].text());
    format_inline_comment(cs, ki, buffer, state, true);
    proof {
        reveal(keyword_line);
        assert(buffer@ =~= out0 + keyword_line(sibs@, i as int, kw, level, b0).0);
    }
}

/// Writes an opening parenthesis or brace.
fn write_opening(
    cs: &[SyntaxElement],
    k: SyntaxKind,
    interrupting: bool,
    buffer: &mut String,
    state: &mut State,
)
    requires
        trivia_well_formed(cs@),
        first_of_kind(cs@, k) < cs@.len(),
        old(state).level() < usize::MAX,
    ensures
        final(buffer)@ == old(buffer)@ + opening_text(
            cs@,
            k,
            old(state).level() as nat,
            old(state).is_interrupted(),
            interrupting,
        ).0,
        final(state).is_interrupted() == opening_text(
            cs@,
            k,
            old(state).level() as nat,
            old(state).is_interrupted(),
            interrupting,
        ).1,
        final(state).level() == old(state).level(),
{
    let ghost out0 = buffer@;
    let ghost level = state.level() as nat;
    let ghost b0 = state.is_interrupted();
    let oi = find_kind(cs, k);
    format_preceding_comments(cs, oi, buffer, state, true);
    if state.interrupted() {
        state.reset_interrupted();
        state.indent(buffer);
    } else {
        buffer.append(SPACE);
    }
    buffer.append(cs[oi].text());
    format_inline_comment(cs, oi, buffer, state, interrupting);
    proof {
        reveal(opening_text);
        assert(buffer@ =~= out0 + opening_text(cs@, k, level, b0, interrupting).0);
    }
}

/// Writes the variable and `in` of a scatter.
fn write_scatter_variable(cs: &[SyntaxElement], buffer: &mut String, state: &mut State)
    requires
        trivia_well_formed(cs@),
        first_of_kind(cs@, SyntaxKind::Ident) < cs@.len(),
        first_of_kind(cs@, SyntaxKind::InKeyword) < cs@.len(),
        old(state).level() < usize::MAX,
    ensures
        final(buffer)@ == old(buffer)@ + scatter_variable(
            cs@,
            old(state).level() as nat,
            old(state).is_interrupted(),
        ).0,
        final(state).is_interrupted() == scatter_variable(
            cs@,
            old(state).level() as nat,
            old(state).is_interrupted(),
        ).1,
        final(state).level() == old(state).level(),
{
    let ghost out0 = buffer@;
    let ghost level = state.level() as nat;
    let ghost b0 = state.is_interrupted();
    let vi = find_kind(cs, SyntaxKind::Ident);
    let ii = find_kind(cs, SyntaxKind::InKeyword);
    format_preceding_comments(cs, vi, buffer, state, true);
    if state.interrupted() {
        state.indent(buffer);
    }
    buffer.append(cs[vi].text());
    format_inline_comment(cs, vi, buffer, state, true);
    format_preceding_comments(cs, ii, buffer, state, true);
    state.space_or_indent(buffer);
    buffer.append(cs[ii].text());
    format_inline_comment(cs, ii, buffer, state, true);
    proof {
        reveal(scatter_variable);
        assert(buffer@ =~= out0 + scatter_variable(cs@, level, b0).0);
    }
}

/// Writes the inline comment of an expression and `)`.
fn write_closing_paren(
    cs: &[SyntaxElement],
    xi: usize,
    with_inline: bool,
    buffer: &mut String,
    state: &mut State,
)
    requires
        xi < cs@.len(),
        trivia_well_formed(cs@),
        first_of_kind(cs@, SyntaxKind::CloseParen) < cs@.len(),
        old(state).level() < usize::MAX,
    ensures
        final(buffer)@ == old(buffer)@ + closing_paren(
            cs@,
            xi as int,
            old(state).level() as nat,
            old(state).is_interrupted(),
            with_inline,
        ).0,
        final(state).is_interrupted() == closing_paren(
            cs@,
            xi as int,
            old(state).level() as nat,
            old(state).is_interrupted(),
            with_inline,
        ).1,
        final(state).level() == old(state).level(),
{
    let ghost out0 = buffer@;
    let ghost level = state.level() as nat;
    let ghost b0 = state.is_interrupted();
    let ci = find_kind(cs, SyntaxKind::CloseParen);
    format_inline_comment(cs, xi, buffer, state, true);
    format_preceding_comments(cs, ci, buffer, state, true);
    if state.interrupted() {
        state.indent(buffer);
    }
    buffer.append(cs[ci].text());
    if with_inline {
        format_inline_comment(cs, ci, buffer, state, true);
    }
    proof {
        reveal(closing_paren);
        assert(buffer@ =~= out0 + closing_paren(cs@, xi as int, level, b0, with_inline).0);
    }
}

/// Writes the part of a scatter between its parentheses, and `)`.
fn write_scatter_clause(cs: &[SyntaxElement], buffer: &mut String, state: &mut State)
    requires
        trivia_well_formed(cs@),
        first_of_kind(cs@, SyntaxKind::Ident) < cs@.len(),
        first_of_kind(cs@, SyntaxKind::InKeyword) < cs@.len(),
        first_of_kind(cs@, SyntaxKind::CloseParen) < cs@.len(),
        first_operand(cs@) < cs@.len(),
        tree_well_formed(cs@[first_operand(cs@)]),
        old(state).level() < usize::MAX,
    ensures
        final(buffer)@ == old(buffer)@ + scatter_clause(
            cs@,
            old(state).level() as nat,
            old(state).is_interrupted(),
        ).0,
        final(state).is_interrupted() == scatter_clause(
            cs@,
            old(state).level() as nat,
            old(state).is_interrupted(),
        ).1,
        final(state).level() == old(state).level(),
{
    let ghost out0 = buffer@;
    let ghost level = state.level() as nat;
    let ghost b0 = state.is_interrupted();
    let xi = find_operand(cs);
    write_scatter_variable(cs, buffer, state);
    format_preceding_comments(cs, xi, buffer, state, true);
    state.space_or_indent(buffer);
    write_expr(&cs[xi], buffer, state);
    write_closing_paren(cs, xi, true, buffer, state);
    proof {
        reveal(scatter_clause);
        assert(buffer@ =~= out0 + scatter_clause(cs@, level, b0).0);
    }
}

/// Writes what precedes a conditional's expression.
fn write_conditional_lead(cs: &[SyntaxElement], ml: bool, buffer: &mut String, state: &mut State)
    requires
        trivia_well_formed(cs@),
        first_operand(cs@) < cs@.len(),
        old(state).level() < usize::MAX,
    ensures
        final(buffer)@ == old(buffer)@ + conditional_lead(
            cs@,
            old(state).level() as nat,
            old(state).is_interrupted(),
            ml,
        ).0,
        final(state).is_interrupted() == conditional_lead(
            cs@,
            old(state).level() as nat,
            old(state).is_interrupted(),
            ml,
        ).1,
        final(state).level() == old(state).level(),
{
    let ghost out0 = buffer@;
    let ghost level = state.level() as nat;
    let ghost b0 = state.is_interrupted();
    let xi = find_operand(cs);
    format_preceding_comments(cs, xi, buffer, state, !ml);
    if state.interrupted() || ml {
        state.indent(buffer);
    }
    proof {
        reveal(conditional_lead);
        assert(buffer@ =~= out0 + conditional_lead(cs@, level, b0, ml).0);
    }
}

/// Writes what follows a conditional's expression, up to `)`.
fn write_conditional_tail(
    cs: &[SyntaxElement],
    lead_interrupted: bool,
    ml: bool,
    buffer: &mut String,
    state: &mut State,
)
    requires
        trivia_well_formed(cs@),
        first_operand(cs@) < cs@.len(),
        first_of_kind(cs@, SyntaxKind::CloseParen) < cs@.len(),
        old(state).level() < usize::MAX,
    ensures
        final(buffer)@ == old(buffer)@ + conditional_tail(
            cs@,
            old(state).level() as nat,
            lead_interrupted,
            old(state).is_interrupted(),
            ml,
        ).0,
        final(state).is_interrupted() == conditional_tail(
            cs@,
            old(state).level() as nat,
            lead_interrupted,
            old(state).is_interrupted(),
            ml,
        ).1,
        final(state).level() == old(state).level(),
{
    let ghost out0 = buffer@;
    let ghost level = state.level() as nat;
    let ghost b0 = state.is_interrupted();
    let xi = find_operand(cs);
    let ci = find_kind(cs, SyntaxKind::CloseParen);
    let mut same_line = !(lead_interrupted || ml);
    format_inline_comment(cs, xi, buffer, state, !ml);
    if state.interrupted() {
        same_line = false;
    }
    format_preceding_comments(cs, ci, buffer, state, !ml);
    if state.interrupted() || !same_line {
        state.indent(buffer);
    }
    buffer.append(cs[ci].text());
    proof {
        reveal(conditional_tail);
        assert(buffer@ =~= out0 + conditional_tail(cs@, level, lead_interrupted, b0, ml).0);
    }
}

/// Writes the part of a conditional between its parentheses, and `)`.
fn write_conditional_clause(cs: &[SyntaxElement], ml: bool, buffer: &mut String, state: &mut State)
    requires
        trivia_well_formed(cs@),
        first_of_kind(cs@, SyntaxKind::CloseParen) < cs@.len(),
        first_operand(cs@) < cs@.len(),
        tree_well_formed(cs@[first_operand(cs@)]),
        old(state).level() + 1 < usize::MAX,
    ensures
        ({
            let r = conditional_clause(
                cs@,
                old(state).level() as nat,
                old(state).is_interrupted(),
                ml,
            );
            &&& final(buffer)@ == old(buffer)@ + r.0
            &&& final(state).is_interrupted() == r.1
            &&& final(state).level() == r.2
        }),
        final(state).level() <= old(state).level() + 1,
{
    let ghost out0 = buffer@;
    let ghost level = state.level() as nat;
    let ghost b0 = state.is_interrupted();
    let xi = find_operand(cs);
    if ml {
        state.increment_indent();
    }
    write_conditional_lead(cs, ml, buffer, state);
    let lead_interrupted = state.interrupted();
    write_expr(&cs[xi], buffer, state);
    write_conditional_tail(cs, lead_interrupted, ml, buffer, state);
    proof {
        reveal(conditional_clause);
        assert(buffer@ =~= out0 + conditional_clause(cs@, level, b0, ml).0);
    }
}

/// Whether the text of `e` spans lines.
fn spans_lines(e: &SyntaxElement) -> (b: bool)
    ensures
        b == (count_newlines_text(full_text(*e)) > 0),
{
    let mut t = String::new();
    write_full_text(e, &mut t);
    proof {
        reveal_strlit("");
        assert(t@ =~= full_text(*e));
    }
    super::comments::newline_count(t.as_str()) > 0
}

/// Writes the start of a scatter or conditional block.
fn write_block_head(sibs: &[SyntaxElement], i: usize, buffer: &mut String, state: &mut State)
    requires
        i < sibs@.len(),
        trivia_well_formed(sibs@),
        sibs@[i as int].spec_kind() == SyntaxKind::ScatterStatementNode || sibs@[i as int].spec_kind()
            == SyntaxKind::ConditionalStatementNode,
        block_well_formed(sibs@, i as int),
        old(state).level() + 2 < usize::MAX,
    ensures
        ({
            let r = block_head(sibs@, i as int, old(state).level() as nat, old(state).is_interrupted());
            &&& final(buffer)@ == old(buffer)@ + r.0
            &&& final(state).is_interrupted() == r.1
            &&& final(state).level() == r.2
        }),
        final(state).level() <= old(state).level() + 1,
{
    let ghost out0 = buffer@;
    let ghost level = state.level() as nat;
    let ghost b0 = state.is_interrupted();
    let cs = sibs[i].children();
    if sibs[i].kind() == SyntaxKind::ScatterStatementNode {
        write_keyword_line(sibs, i, SyntaxKind::ScatterKeyword, buffer, state);
        write_opening(cs, SyntaxKind::OpenParen, true, buffer, state);
        write_scatter_clause(cs, buffer, state);
        write_opening(cs, SyntaxKind::OpenBrace, false, buffer, state);
    } else {
        let xi = find_operand(cs);
        let ml = spans_lines(&cs[xi]);
        write_keyword_line(sibs, i, SyntaxKind::IfKeyword, buffer, state);
        write_opening(cs, SyntaxKind::OpenParen, !ml, buffer, state);
        write_conditional_clause(cs, ml, buffer, state);
        write_opening(cs, SyntaxKind::OpenBrace, false, buffer, state);
    }
    assert(buffer@ =~= out0 + block_head(sibs@, i as int, level, b0).0);
}

/// Writes a workflow statement `siblings[index]`: a call, a bound
/// declaration, or a scatter or conditional block with the statements it
/// holds.
pub fn write_statement(siblings: &[SyntaxElement], index: usize, buffer: &mut String, state: &mut State)
    requires
        statement_well_formed(siblings@, index as int),
        old(state).level() + 2 * size(siblings@[index as int]) + 3 < usize::MAX,
    ensures
        ({
            let r = statement_text(
                siblings@,
                index as int,
                old(state).level() as nat,
                old(state).is_interrupted(),
            );
            &&& final(buffer)@ == old(buffer)@ + r.0
            &&& final(state).is_interrupted() == r.1
            &&& final(state).level() == r.2
        }),
        final(state).level() <= old(state).level() + size(siblings@[index as int]),
    decreases siblings@[index as int], 3int, 0int,
{
    let kind = siblings[index].kind();
    if kind == SyntaxKind::CallStatementNode {
        CallStatement { siblings, index }.format(buffer, state);
    } else if kind == SyntaxKind::BoundDeclNode {
        write_decl(siblings, index, buffer, state);
    } else if kind == SyntaxKind::ScatterStatementNode || kind == SyntaxKind::ConditionalStatementNode {
        write_block(siblings, index, buffer, state);
    }
}

/// Writes a scatter or conditional block with the statements it holds.
fn write_block(siblings: &[SyntaxElement], index: usize, buffer: &mut String, state: &mut State)
    requires
        statement_well_formed(siblings@, index as int),
        siblings@[index as int].spec_kind() == SyntaxKind::ScatterStatementNode
            || siblings@[index as int].spec_kind() == SyntaxKind::ConditionalStatementNode,
        old(state).level() + 2 * size(siblings@[index as int]) + 3 < usize::MAX,
    ensures
        ({
            let r = block_text(
                siblings@,
                index as int,
                old(state).level() as nat,
                old(state).is_interrupted(),
            );
            &&& final(buffer)@ == old(buffer)@ + r.0
            &&& final(state).is_interrupted() == r.1
            &&& final(state).level() == r.2
        }),
        final(state).level() <= old(state).level() + size(siblings@[index as int]),
    decreases siblings@[index as int], 2int, 0int,
{
    let ghost out0 = buffer@;
    let ghost level = state.level() as nat;
    let ghost b0 = state.is_interrupted();
    let ghost e = siblings@[index as int];
    let cs = siblings[index].children();
    proof {
        lemma_children_size_le(e, 0, cs@.len() as int);
    }
    write_block_head(siblings, index, buffer, state);
    state.increment_indent();
    write_body(siblings, index, buffer, state);
    state.decrement_indent();
    write_block_close(siblings, index, buffer, state);
    assert(buffer@ =~= out0 + block_text(siblings@, index as int, level, b0).0);
}

/// Writes the statements a block holds.
fn write_body(siblings: &[SyntaxElement], index: usize, buffer: &mut String, state: &mut State)
    requires
        statement_well_formed(siblings@, index as int),
        siblings@[index as int].spec_kind() == SyntaxKind::ScatterStatementNode
            || siblings@[index as int].spec_kind() == SyntaxKind::ConditionalStatementNode,
        !old(state).is_interrupted(),
        1 <= old(state).level(),
        old(state).level() + 2 * size(siblings@[index as int]) + 1 < usize::MAX,
    ensures
        ({
            let e = siblings@[index as int];
            let r = body_text(e, e.spec_children().len() as int, old(state).level() as nat, false);
            &&& final(buffer)@ == old(buffer)@ + r.0
            &&& final(state).is_interrupted() == r.1
            &&& final(state).level() == r.2
        }),
        final(state).level() <= old(state).level() + children_size(
            siblings@[index as int],
            siblings@[index as int].spec_children().len() as int,
        ),
    decreases siblings@[index as int], 1int, 0int,
{
    let ghost e = siblings@[index as int];
    let ghost start = buffer@;
    let ghost l0 = state.level() as nat;
    let cs = siblings[index].children();
    proof {
        lemma_children_size_le(e, 0, cs@.len() as int);
    }
    let mut j: usize = 0;
    while j < cs.len()
        invariant
            j <= cs@.len(),
            cs@ == e.spec_children(),
            e == siblings@[index as int],
            statement_well_formed(siblings@, index as int),
            siblings@[index as int].spec_kind() == SyntaxKind::ScatterStatementNode
                || siblings@[index as int].spec_kind() == SyntaxKind::ConditionalStatementNode,
            l0 + 2 * size(e) + 1 < usize::MAX,
            size(e) == 1 + children_size(e, cs@.len() as int),
            buffer@ == start + body_text(e, j as int, l0, false).0,
            state.is_interrupted() == body_text(e, j as int, l0, false).1,
            state.level() == body_text(e, j as int, l0, false).2,
            state.level() <= l0 + children_size(e, j as int),
        decreases cs@.len() - j,
    {
        if is_statement(cs[j].kind()) {
            proof {
                lemma_child_decreases(e, j as int);
                lemma_body_well_formed(e, cs@.len() as int, j as int);
                lemma_children_size_le(e, j + 1, cs@.len() as int);
            }
            write_statement(cs, j, buffer, state);
        }
        j = j + 1;
    }
}

/// Writes the end of a block.
fn write_block_close(siblings: &[SyntaxElement], index: usize, buffer: &mut String, state: &mut State)
    requires
        statement_well_formed(siblings@, index as int),
        siblings@[index as int].spec_kind() == SyntaxKind::ScatterStatementNode
            || siblings@[index as int].spec_kind() == SyntaxKind::ConditionalStatementNode,
        !old(state).is_interrupted(),
        old(state).level() < usize::MAX,
    ensures
        ({
            let r = block_close(siblings@, index as int, old(state).level() as nat);
            &&& final(buffer)@ == old(buffer)@ + r.0
            &&& final(state).is_interrupted() == r.1
        }),
        final(state).level() == old(state).level(),
{
    let ghost out0 = buffer@;
    let ghost level = state.level() as nat;
    let cs = siblings[index].children();
    let ci = find_kind(cs, SyntaxKind::CloseBrace);
    format_preceding_comments(cs, ci, buffer, state, false);
    state.indent(buffer);
    buffer.append(cs[ci].text());
    format_inline_comment(siblings, index, buffer, state, false);
    proof {
        reveal(block_close);
        assert(buffer@ =~= out0 + block_close(siblings@, index as int, level).0);
    }
}

/// Whether a kind is that of a workflow statement.
fn is_statement(k: SyntaxKind) -> (b: bool)
    ensures
        b == is_statement_kind(k),
{
    k == SyntaxKind::CallStatementNode || k == SyntaxKind::BoundDeclNode || k
        == SyntaxKind::ScatterStatementNode || k == SyntaxKind::ConditionalStatementNode
}

/// A scatter statement among its siblings: `siblings[index]`.
pub struct ScatterStatement<'a> {
    /// The elements among which the statement stands.
    pub siblings: &'a [SyntaxElement],
    /// The position of the statement among them.
    pub index: usize,
}

impl<'a> ScatterStatement<'a> {
    /// Writes the scatter: its preceding comments; on an indented line
    /// `scatter (`, its variable, `in` and expression, `) {`; the statements
    /// it holds one level deeper; and `}` on an indented line with its
    /// inline comment or a line feed.
    pub fn format(&self, buffer: &mut String, state: &mut State)
        requires
            statement_well_formed(self.siblings@, self.index as int),
            self.siblings@[self.index as int].spec_kind() == SyntaxKind::ScatterStatementNode,
            old(state).level() + 2 * size(self.siblings@[self.index as int]) + 3 < usize::MAX,
        ensures
            ({
                let r = statement_text(
                    self.siblings@,
                    self.index as int,
                    old(state).level() as nat,
                    old(state).is_interrupted(),
                );
                &&& final(buffer)@ == old(buffer)@ + r.0
                &&& final(state).is_interrupted() == r.1
                &&& final(state).level() == r.2
            }),
    {
        write_statement(self.siblings, self.index, buffer, state);
    }
}

/// A conditional statement among its siblings: `siblings[index]`.
pub struct ConditionalStatement<'a> {
    /// The elements among which the statement stands.
    pub siblings: &'a [SyntaxElement],
    /// The position of the statement among them.
    pub index: usize,
}

impl<'a> ConditionalStatement<'a> {
    /// Writes the conditional: its preceding comments; on an indented line
    /// `if (`, its expression (one level deeper on lines of its own when it
    /// spans lines, a level that then stays), `) {`; the statements it holds
    /// one level deeper; and `}` on an indented line with its inline comment
    /// or a line feed.
    pub fn format(&self, buffer: &mut String, state: &mut State)
        requires
            statement_well_formed(self.siblings@, self.index as int),
            self.siblings@[self.index as int].spec_kind() == SyntaxKind::ConditionalStatementNode,
            old(state).level() + 2 * size(self.siblings@[self.index as int]) + 3 < usize::MAX,
        ensures
            ({
                let r = statement_text(
                    self.siblings@,
                    self.index as int,
                    old(state).level() as nat,
                    old(state).is_interrupted(),
                );
                &&& final(buffer)@ == old(buffer)@ + r.0
                &&& final(state).is_interrupted() == r.1
                &&& final(state).level() == r.2
            }),
    {
        write_statement(self.siblings, self.index, buffer, state);
    }
}

} // verus!
