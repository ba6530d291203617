//! Formatting of expressions over a lossless syntax tree: a literal string
//! is written between double quotes with its placeholders formatted; any
//! other expression is written as it stands.
use vstd::prelude::*;

use super::comments::format_inline_comment;
use super::comments::format_preceding_comments;
use super::comments::preceding_comments;
use super::comments::trivia_well_formed;
use super::comments::SyntaxElement;
use super::import::find_kind;
use super::import::first_of_kind;
use super::import::inline_after;
use super::import::space_or_indent_text;
use super::state::State;
use super::syntax::SyntaxKind;
use crate::text::push_char;

verus! {

/// An element is larger than each of its children.
pub proof fn lemma_child_decreases(e: SyntaxElement, i: int)
    requires
        0 <= i < e.spec_children().len(),
    ensures
        decreases_to!(e => e.spec_children()[i]),
{
    broadcast use vstd::std_specs::vec::axiom_vec_decreases_to_view;

    match e {
        SyntaxElement::Node(k, v) => {
            assert(decreases_to!(e => v));
            assert(decreases_to!(v => v@));
            assert(decreases_to!(v@ => v@[i]));
        },
        SyntaxElement::Token(_, _) => {},
    }
}

/// The text of an element as it stands in the source: a token's text, or
/// the texts of a node's children one after another.
pub open spec fn full_text(e: SyntaxElement) -> Seq<char>
    decreases e, 1int, 0int,
{
    match e {
        SyntaxElement::Token(_, t) => t@,
        SyntaxElement::Node(_, _) => children_text(e, e.spec_children().len() as int),
    }
}

/// The texts of the first `n` children of `e`, one after another.
pub open spec fn children_text(e: SyntaxElement, n: int) -> Seq<char>
    decreases e, 0int, n,
{
    if n <= 0 || n > e.spec_children().len() {
        Seq::empty()
    } else {
        proof {
            lemma_child_decreases(e, n - 1);
        }
        children_text(e, n - 1) + full_text(e.spec_children()[n - 1])
    }
}

/// Writes the text of an element as it stands in the source.
pub fn write_full_text(e: &SyntaxElement, buffer: &mut String)
    ensures
        final(buffer)@ == old(buffer)@ + full_text(*e),
    decreases *e, 1int, 0int,
{
    match e {
        SyntaxElement::Token(_, t) => buffer.append(t.as_str()),
        SyntaxElement::Node(_, cs) => {
            let ghost start = buffer@;
            let mut k: usize = 0;
            while k < cs.len()
                invariant
                    k <= cs@.len(),
                    cs@ == e.spec_children(),
                    buffer@ == start + children_text(*e, k as int),
                decreases cs@.len() - k,
            {
                proof {
                    lemma_child_decreases(*e, k as int);
                }
                write_full_text(&cs[k as usize], buffer);
                k = k + 1;
            }
        },
    }
}

/// Whether a kind is that of a placeholder option.
pub open spec fn is_option_kind(k: SyntaxKind) -> bool {
    ||| k == SyntaxKind::PlaceholderSepOptionNode
    ||| k == SyntaxKind::PlaceholderDefaultOptionNode
    ||| k == SyntaxKind::PlaceholderTrueFalseOptionNode
}

/// The index of the first option among `cs`, or `cs.len()`.
pub open spec fn first_option(cs: Seq<SyntaxElement>) -> int
    decreases cs.len(),
{
    if cs.len() == 0 {
        0
    } else if is_option_kind(cs[0].spec_kind()) {
        0
    } else {
        1 + first_option(cs.drop_first())
    }
}

/// The index of the first node among `cs` that is not an option (the
/// expression of a placeholder, or the value of an option), or `cs.len()`.
pub open spec fn first_operand(cs: Seq<SyntaxElement>) -> int
    decreases cs.len(),
{
    if cs.len() == 0 {
        0
    } else if cs[0] is Node && !is_option_kind(cs[0].spec_kind()) {
        0
    } else {
        1 + first_operand(cs.drop_first())
    }
}

/// An expression as written at `level` from a line that is `interrupted`,
/// with whether the line is interrupted afterwards.
pub open spec fn expr_text(e: SyntaxElement, level: nat, interrupted: bool) -> (Seq<char>, bool)
    decreases e, 3int, 0int,
{
    if e.spec_kind() == SyntaxKind::LiteralStringNode {
        let (t, b) = string_parts(e, e.spec_children().len() as int, level, interrupted);
        (seq!['"'] + t + seq!['"'], b)
    } else {
        (full_text(e), interrupted)
    }
}

/// The first `n` parts of the literal string `e`: its texts, and its
/// placeholders formatted.
pub open spec fn string_parts(e: SyntaxElement, n: int, level: nat, interrupted: bool) -> (
    Seq<char>,
    bool,
)
    decreases e, 2int, n,
{
    if n <= 0 || n > e.spec_children().len() {
        (Seq::empty(), interrupted)
    } else {
        let (t, b) = string_parts(e, n - 1, level, interrupted);
        let c = e.spec_children()[n - 1];
        if c.spec_kind() == SyntaxKind::LiteralStringText {
            (t + c.spec_text(), b)
        } else if c.spec_kind() == SyntaxKind::PlaceholderNode {
            proof {
                lemma_child_decreases(e, n - 1);
            }
            let (t2, b2) = placeholder_text(c, level, b);
            (t + t2, b2)
        } else {
            (t, b)
        }
    }
}

/// A placeholder: `~{`, its first option followed by a space (or an
/// indentation where comments interrupted it), its expression, and `}`.
pub open spec fn placeholder_text(p: SyntaxElement, level: nat, interrupted: bool) -> (
    Seq<char>,
    bool,
)
    decreases p, 1int, 0int,
{
    let cs = p.spec_children();
    let oi = first_option(cs);
    let xi = first_operand(cs);
    let (ot, b1) = if 0 <= oi < cs.len() {
        proof {
            lemma_child_decreases(p, oi);
        }
        let (t, b) = option_text(cs[oi], level, interrupted);
        (t + space_or_indent_text(level, b), false)
    } else {
        (Seq::empty(), interrupted)
    };
    let (xt, b2) = if 0 <= xi < cs.len() {
        proof {
            lemma_child_decreases(p, xi);
        }
        expr_text(cs[xi], level, b1)
    } else {
        (Seq::empty(), b1)
    };
    (seq!['~', '{'] + ot + xt + seq!['}'], b2)
}

/// A `sep` or `default` option: its word, `=` and its value, each after the
/// comments that belong to it and with its inline comment.
pub open spec fn option_text(o: SyntaxElement, level: nat, interrupted: bool) -> (
    Seq<char>,
    bool,
)
    decreases o, 1int, 0int,
{
    let cs = o.spec_children();
    if o.spec_kind() == SyntaxKind::PlaceholderTrueFalseOptionNode {
        let (w, tc, fc, _, b) = true_false_parts(o, cs.len() as int, level, interrupted);
        (w + tc + seq![' '] + fc, b)
    } else {
        let vi = first_operand(cs);
        let value = if 0 <= vi < cs.len() {
            proof {
                lemma_child_decreases(o, vi);
            }
            expr_text(cs[vi], level, false)
        } else {
            (Seq::empty(), false)
        };
        word_option_text(cs, level, interrupted, value)
    }
}

/// A `sep` or `default` option with children `cs`, whose value is written
/// as `value` says: its word, `=` and its value, each after the comments
/// that belong to it and with its inline comment.
#[verifier::opaque]
pub open spec fn word_option_text(
    cs: Seq<SyntaxElement>,
    level: nat,
    interrupted: bool,
    value: (Seq<char>, bool),
) -> (Seq<char>, bool) {
    let vi = first_operand(cs);
    let (h, b4) = word_head_text(cs, level, interrupted);
    let (p3, b5) = preceding_comments(cs, vi, level, b4, true);
    let s3 = space_or_indent_text(level, b5);
    let (vt, b6) = value;
    let (i3, b7) = inline_after(cs, vi, b6, true);
    (h + p3 + s3 + vt + i3, b7)
}

/// The word and `=` of a `sep` or `default` option with children `cs`,
/// each after the comments that belong to it and with its inline comment.
#[verifier::opaque]
pub open spec fn word_head_text(cs: Seq<SyntaxElement>, level: nat, interrupted: bool) -> (
    Seq<char>,
    bool,
) {
    let wi = first_of_kind(cs, SyntaxKind::Ident);
    let ai = first_of_kind(cs, SyntaxKind::Assignment);
    let (p1, b1) = preceding_comments(cs, wi, level, interrupted, true);
    let (i1, b2) = inline_after(cs, wi, b1, true);
    let (p2, b3) = preceding_comments(cs, ai, level, b2, true);
    let s2 = space_or_indent_text(level, b3);
    let (i2, b4) = inline_after(cs, ai, false, true);
    (p1 + cs[wi].spec_text() + i1 + p2 + s2 + cs[ai].spec_text() + i2, b4)
}

/// What a `true`/`false` option's child `cs[k]` adds, from `acc`, when a
/// string there is written as `string` says: what goes
/// straight to the output (the inline comments of the strings), the `true`
/// clause, the `false` clause, which clause is being written (`Some(true)`
/// for the `true` one), and whether the line is interrupted.
#[verifier::opaque]
pub open spec fn true_false_step(
    cs: Seq<SyntaxElement>,
    k: int,
    level: nat,
    acc: (Seq<char>, Seq<char>, Seq<char>, Option<bool>, bool),
    string: (Seq<char>, bool),
) -> (Seq<char>, Seq<char>, Seq<char>, Option<bool>, bool) {
    let (w, tc, fc, which, b) = acc;
    let c = cs[k];
    let kind = c.spec_kind();
    if kind == SyntaxKind::TrueKeyword || kind == SyntaxKind::FalseKeyword {
        let (p, b1) = preceding_comments(cs, k, level, b, true);
        let (i, b2) = inline_after(cs, k, b1, true);
        let part = p + c.spec_text() + i;
        if kind == SyntaxKind::TrueKeyword {
            (w, tc + part, fc, Some(true), b2)
        } else {
            (w, tc, fc + part, Some(false), b2)
        }
    } else if kind == SyntaxKind::Assignment {
        let (p, b1) = preceding_comments(cs, k, level, b, true);
        let s = space_or_indent_text(level, b1);
        let (i, b2) = inline_after(cs, k, false, true);
        let part = p + s + c.spec_text() + i;
        if which == Some(true) {
            (w, tc + part, fc, which, b2)
        } else {
            (w, tc, fc + part, which, b2)
        }
    } else if kind == SyntaxKind::LiteralStringNode {
        let (p, b1) = preceding_comments(cs, k, level, b, true);
        let s = space_or_indent_text(level, b1);
        let (st, b2) = string;
        let (i, b3) = inline_after(cs, k, b2, true);
        let part = p + s + st;
        if which == Some(true) {
            (w + i, tc + part, fc, which, b3)
        } else {
            (w + i, tc, fc + part, which, b3)
        }
    } else {
        acc
    }
}

/// The first `n` children of a `true`/`false` option `o`, written in turn
/// (see [`true_false_step`]).
pub open spec fn true_false_parts(o: SyntaxElement, n: int, level: nat, interrupted: bool) -> (
    Seq<char>,
    Seq<char>,
    Seq<char>,
    Option<bool>,
    bool,
)
    decreases o, 0int, n,
{
    let cs = o.spec_children();
    if n <= 0 || n > cs.len() {
        (Seq::empty(), Seq::empty(), Seq::empty(), None, interrupted)
    } else {
        proof {
            lemma_child_decreases(o, n - 1);
        }
        true_false_step(
            cs,
            n - 1,
            level,
            true_false_parts(o, n - 1, level, interrupted),
            expr_text(cs[n - 1], level, false),
        )
    }
}

/// Whether a `true`/`false` option holds only its keywords, assignments,
/// strings and trivia, with a keyword before any assignment or string.
pub open spec fn true_false_well_formed(cs: Seq<SyntaxElement>) -> bool {
    forall|k: int|
        0 <= k < cs.len() ==> {
            let kind = (#[trigger] cs[k]).spec_kind();
            &&& (kind == SyntaxKind::TrueKeyword || kind == SyntaxKind::FalseKeyword || kind
                == SyntaxKind::Assignment || kind == SyntaxKind::LiteralStringNode
                || kind.spec_is_trivia())
            &&& (kind == SyntaxKind::Assignment || kind == SyntaxKind::LiteralStringNode) ==> exists|
                j: int,
            |
                0 <= j < k && (#[trigger] cs[j].spec_kind() == SyntaxKind::TrueKeyword
                    || cs[j].spec_kind() == SyntaxKind::FalseKeyword)
        }
}

/// Whether an element and everything under it is as a parser makes it:
/// trivia tokens among the children of every node, every placeholder with an
/// expression, every `sep` or `default` option with its word, `=` and
/// value, and every `true`/`false` option well formed.
pub open spec fn tree_well_formed(e: SyntaxElement) -> bool
    decreases e, 1int, 0int,
{
    let cs = e.spec_children();
    let kind = e.spec_kind();
    &&& trivia_well_formed(cs)
    &&& kind == SyntaxKind::PlaceholderNode ==> first_operand(cs) < cs.len()
    &&& (kind == SyntaxKind::PlaceholderSepOptionNode || kind
        == SyntaxKind::PlaceholderDefaultOptionNode) ==> {
        &&& first_of_kind(cs, SyntaxKind::Ident) < cs.len()
        &&& first_of_kind(cs, SyntaxKind::Assignment) < cs.len()
        &&& first_operand(cs) < cs.len()
    }
    &&& kind == SyntaxKind::PlaceholderTrueFalseOptionNode ==> true_false_well_formed(cs)
    &&& children_well_formed(e, cs.len() as int)
}

/// Whether the first `n` children of `e` are well formed.
pub open spec fn children_well_formed(e: SyntaxElement, n: int) -> bool
    decreases e, 0int, n,
{
    if n <= 0 || n > e.spec_children().len() {
        true
    } else {
        proof {
            lemma_child_decreases(e, n - 1);
        }
        children_well_formed(e, n - 1) && tree_well_formed(e.spec_children()[n - 1])
    }
}

/// Every child of a well-formed element is well formed.
pub proof fn lemma_children_well_formed(e: SyntaxElement, n: int, k: int)
    requires
        children_well_formed(e, n),
        0 <= k < n <= e.spec_children().len(),
    ensures
        tree_well_formed(e.spec_children()[k]),
    decreases n,
{
    if k < n - 1 {
        lemma_children_well_formed(e, n - 1, k);
    }
}

/// Finds the first option among `cs`.
fn find_option(cs: &[SyntaxElement]) -> (i: usize)
    ensures
        i == first_option(cs@),
        i <= cs@.len(),
        i < cs@.len() ==> is_option_kind(cs@[i as int].spec_kind()),
{
    let mut i: usize = 0;
    assert(cs@.skip(0) =~= cs@);
    while i < cs.len() && !(cs[i].kind() == SyntaxKind::PlaceholderSepOptionNode || cs[i].kind()
        == SyntaxKind::PlaceholderDefaultOptionNode || cs[i].kind()
        == SyntaxKind::PlaceholderTrueFalseOptionNode)
        invariant
            i <= cs@.len(),
            first_option(cs@) == i + first_option(cs@.skip(i as int)),
        decreases cs@.len() - i,
    {
        assert(cs@.skip(i as int).drop_first() =~= cs@.skip(i + 1int));
        i = i + 1;
    }
    proof {
        if i < cs@.len() {
            assert(cs@.skip(i as int)[0] == cs@[i as int]);
        }
    }
    i
}

/// Whether an element is a node that is not an option.
fn is_operand(e: &SyntaxElement) -> (b: bool)
    ensures
        b == (*e is Node && !is_option_kind(e.spec_kind())),
{
    match e {
        SyntaxElement::Node(k, _) => !(*k == SyntaxKind::PlaceholderSepOptionNode || *k
            == SyntaxKind::PlaceholderDefaultOptionNode || *k
            == SyntaxKind::PlaceholderTrueFalseOptionNode),
        SyntaxElement::Token(_, _) => false,
    }
}

/// Finds the first node among `cs` that is not an option.
pub fn find_operand(cs: &[SyntaxElement]) -> (i: usize)
    ensures
        i == first_operand(cs@),
        i <= cs@.len(),
        i < cs@.len() ==> cs@[i as int] is Node && !is_option_kind(cs@[i as int].spec_kind()),
{
    let mut i: usize = 0;
    assert(cs@.skip(0) =~= cs@);
    while i < cs.len() && !is_operand(&cs[i])
        invariant
            i <= cs@.len(),
            first_operand(cs@) == i + first_operand(cs@.skip(i as int)),
        decreases cs@.len() - i,
    {
        assert(cs@.skip(i as int).drop_first() =~= cs@.skip(i + 1int));
        i = i + 1;
    }
    proof {
        if i < cs@.len() {
            assert(cs@.skip(i as int)[0] == cs@[i as int]);
        }
    }
    i
}

/// Writes an expression: a literal string between double quotes with its
/// placeholders formatted, any other expression as it stands.
pub fn write_expr(e: &SyntaxElement, buffer: &mut String, state: &mut State)
    requires
        tree_well_formed(*e),
        old(state).level() < usize::MAX,
    ensures
        final(buffer)@ == old(buffer)@ + expr_text(
            *e,
            old(state).level() as nat,
            old(state).is_interrupted(),
        ).0,
        final(state).is_interrupted() == expr_text(
            *e,
            old(state).level() as nat,
            old(state).is_interrupted(),
        ).1,
        final(state).level() == old(state).level(),
    decreases *e, 3int, 0int,
{
    if e.kind() == SyntaxKind::LiteralStringNode {
        let cs = e.children();
        let ghost level = state.level() as nat;
        let ghost b0 = state.is_interrupted();
        push_char(buffer, '"');
        let ghost start = buffer@;
        let mut k: usize = 0;
        while k < cs.len()
            invariant
                k <= cs@.len(),
                cs@ == e.spec_children(),
                tree_well_formed(*e),
                state.level() == level,
                level < usize::MAX,
                buffer@ == start + string_parts(*e, k as int, level, b0).0,
                state.is_interrupted() == string_parts(*e, k as int, level, b0).1,
            decreases cs@.len() - k,
        {
            let c = &cs[k];
            proof {
                let prev = string_parts(*e, k as int, level, b0);
                let ph = placeholder_text(*c, level, prev.1);
                assert(cs@[k as int] == *c);
                assert(string_parts(*e, k + 1int, level, b0) == if c.spec_kind()
                    == SyntaxKind::LiteralStringText {
                    (prev.0 + c.spec_text(), prev.1)
                } else if c.spec_kind() == SyntaxKind::PlaceholderNode {
                    (prev.0 + ph.0, ph.1)
                } else {
                    prev
                });
            }
            if c.kind() == SyntaxKind::LiteralStringText {
                buffer.append(c.text());
            } else if c.kind() == SyntaxKind::PlaceholderNode {
                proof {
                    lemma_child_decreases(*e, k as int);
                    lemma_children_well_formed(*e, cs@.len() as int, k as int);
                }
                write_placeholder(c, buffer, state);
            }
            k = k + 1;
        }
        push_char(buffer, '"');
    } else {
        write_full_text(e, buffer);
    }
}

/// Writes a placeholder: `~{`, its first option and a space (or an
/// indentation where comments interrupted it), its expression, and `}`.
#[verifier::spinoff_prover]
#[verifier::rlimit(80)]
pub fn write_placeholder(p: &SyntaxElement, buffer: &mut String, state: &mut State)
    requires
        tree_well_formed(*p),
        old(state).level() < usize::MAX,
    ensures
        final(buffer)@ == old(buffer)@ + placeholder_text(
            *p,
            old(state).level() as nat,
            old(state).is_interrupted(),
        ).0,
        final(state).is_interrupted() == placeholder_text(
            *p,
            old(state).level() as nat,
            old(state).is_interrupted(),
        ).1,
        final(state).level() == old(state).level(),
    decreases *p, 1int, 0int,
{
    let ghost out0 = buffer@;
    let cs = p.children();
    push_char(buffer, '~');
    push_char(buffer, '{');
    let oi = find_option(cs);
    if oi < cs.len() {
        proof {
            lemma_child_decreases(*p, oi as int);
            lemma_children_well_formed(*p, cs@.len() as int, oi as int);
        }
        write_option(&cs[oi], buffer, state);
        state.space_or_indent(buffer);
    }
    let xi = find_operand(cs);
    if xi < cs.len() {
        proof {
            lemma_child_decreases(*p, xi as int);
            lemma_children_well_formed(*p, cs@.len() as int, xi as int);
        }
        write_expr(&cs[xi], buffer, state);
    }
    push_char(buffer, '}');
    proof {
        assert(buffer@ =~= out0 + placeholder_text(
            *p,
            old(state).level() as nat,
            old(state).is_interrupted(),
        ).0);
    }
}

/// Writes the child `cs[k]` of a `true`/`false` option into its clause
/// (and a string's inline comment to `buffer`); returns which clause is
/// being written afterwards.
fn write_true_false_step(
    cs: &[SyntaxElement],
    k: usize,
    buffer: &mut String,
    true_clause: &mut String,
    false_clause: &mut String,
    which: Option<bool>,
    state: &mut State,
) -> (r: Option<bool>)
    requires
        k < cs@.len(),
        trivia_well_formed(cs@),
        tree_well_formed(cs@[k as int]),
        (cs@[k as int].spec_kind() == SyntaxKind::Assignment || cs@[k as int].spec_kind()
            == SyntaxKind::LiteralStringNode) ==> which is Some,
        old(state).level() < usize::MAX,
    ensures
        ({
            let acc = (
                old(buffer)@,
                old(true_clause)@,
                old(false_clause)@,
                which,
                old(state).is_interrupted(),
            );
            let st = expr_text(cs@[k as int], old(state).level() as nat, false);
            let res = true_false_step(cs@, k as int, old(state).level() as nat, acc, st);
            &&& final(buffer)@ == res.0
            &&& final(true_clause)@ == res.1
            &&& final(false_clause)@ == res.2
            &&& r == res.3
            &&& final(state).is_interrupted() == res.4
        }),
        final(state).level() == old(state).level(),
        r is Some <==> (which is Some || cs@[k as int].spec_kind() == SyntaxKind::TrueKeyword
            || cs@[k as int].spec_kind() == SyntaxKind::FalseKeyword),
    decreases cs@[k as int], 4int, 0int,
{
    reveal(true_false_step);
    let c = &cs[k];
    let kind = c.kind();
    let in_true = match which {
        Some(v) => v,
        None => false,
    };
    if kind == SyntaxKind::TrueKeyword {
        format_preceding_comments(cs, k, true_clause, state, true);
        true_clause.append(c.text());
        format_inline_comment(cs, k, true_clause, state, true);
        Some(true)
    } else if kind == SyntaxKind::FalseKeyword {
        format_preceding_comments(cs, k, false_clause, state, true);
        false_clause.append(c.text());
        format_inline_comment(cs, k, false_clause, state, true);
        Some(false)
    } else if kind == SyntaxKind::Assignment {
        if in_true {
            format_preceding_comments(cs, k, true_clause, state, true);
            state.space_or_indent(true_clause);
            true_clause.append(c.text());
            format_inline_comment(cs, k, true_clause, state, true);
        } else {
            format_preceding_comments(cs, k, false_clause, state, true);
            state.space_or_indent(false_clause);
            false_clause.append(c.text());
            format_inline_comment(cs, k, false_clause, state, true);
        }
        which
    } else if kind == SyntaxKind::LiteralStringNode {
        if in_true {
            format_preceding_comments(cs, k, true_clause, state, true);
            state.space_or_indent(true_clause);
            write_expr(c, true_clause, state);
        } else {
            format_preceding_comments(cs, k, false_clause, state, true);
            state.space_or_indent(false_clause);
            write_expr(c, false_clause, state);
        }
        format_inline_comment(cs, k, buffer, state, true);
        which
    } else {
        which
    }
}

/// Writes a `true`/`false` option.
#[verifier::spinoff_prover]
#[verifier::rlimit(80)]
fn write_true_false(o: &SyntaxElement, buffer: &mut String, state: &mut State)
    requires
        tree_well_formed(*o),
        o.spec_kind() == SyntaxKind::PlaceholderTrueFalseOptionNode,
        old(state).level() < usize::MAX,
    ensures
        final(buffer)@ == old(buffer)@ + option_text(
            *o,
            old(state).level() as nat,
            old(state).is_interrupted(),
        ).0,
        final(state).is_interrupted() == option_text(
            *o,
            old(state).level() as nat,
            old(state).is_interrupted(),
        ).1,
        final(state).level() == old(state).level(),
    decreases *o, 0int, 0int,
{
    let cs = o.children();
    let ghost out0 = buffer@;
    let ghost level = state.level() as nat;
    let ghost b0 = state.is_interrupted();
    let mut direct = String::new();
    let mut true_clause = String::new();
    let mut false_clause = String::new();
    let mut which: Option<bool> = None;
    let mut k: usize = 0;
    proof {
        reveal_strlit("");
    }
    while k < cs.len()
        invariant
            k <= cs@.len(),
            cs@ == o.spec_children(),
            tree_well_formed(*o),
            o.spec_kind() == SyntaxKind::PlaceholderTrueFalseOptionNode,
            state.level() == level,
            level < usize::MAX,
            buffer@ == out0,
            direct@ == true_false_parts(*o, k as int, level, b0).0,
            true_clause@ == true_false_parts(*o, k as int, level, b0).1,
            false_clause@ == true_false_parts(*o, k as int, level, b0).2,
            which == true_false_parts(*o, k as int, level, b0).3,
            state.is_interrupted() == true_false_parts(*o, k as int, level, b0).4,
            which is Some <==> exists|j: int|
                0 <= j < k && (#[trigger] cs@[j].spec_kind() == SyntaxKind::TrueKeyword
                    || cs@[j].spec_kind() == SyntaxKind::FalseKeyword),
        decreases cs@.len() - k,
    {
        proof {
            lemma_child_decreases(*o, k as int);
            lemma_children_well_formed(*o, cs@.len() as int, k as int);
        }
        which = write_true_false_step(
            cs,
            k,
            &mut direct,
            &mut true_clause,
            &mut false_clause,
            which,
            state,
        );
        k = k + 1;
    }
    buffer.append(direct.as_str());
    buffer.append(true_clause.as_str());
    push_char(buffer, ' ');
    buffer.append(false_clause.as_str());
    proof {
        assert(buffer@ =~= out0 + option_text(*o, level, b0).0);
    }
}

/// Writes the word and `=` of a `sep` or `default` option.
fn write_word_head(cs: &[SyntaxElement], buffer: &mut String, state: &mut State)
    requires
        trivia_well_formed(cs@),
        first_of_kind(cs@, SyntaxKind::Ident) < cs@.len(),
        first_of_kind(cs@, SyntaxKind::Assignment) < cs@.len(),
        old(state).level() < usize::MAX,
    ensures
        final(buffer)@ == old(buffer)@ + word_head_text(
            cs@,
            old(state).level() as nat,
            old(state).is_interrupted(),
        ).0,
        final(state).is_interrupted() == word_head_text(
            cs@,
            old(state).level() as nat,
            old(state).is_interrupted(),
        ).1,
        final(state).level() == old(state).level(),
{
    let ghost out0 = buffer@;
    let ghost level = state.level() as nat;
    let ghost b0 = state.is_interrupted();
    let wi = find_kind(cs, SyntaxKind::Ident);
    let ai = find_kind(cs, SyntaxKind::Assignment);
    format_preceding_comments(cs, wi, buffer, state, true);
    buffer.append(cs[wi].text());
    format_inline_comment(cs, wi, buffer, state, true);
    format_preceding_comments(cs, ai, buffer, state, true);
    state.space_or_indent(buffer);
    buffer.append(cs[ai].text());
    format_inline_comment(cs, ai, buffer, state, true);
    proof {
        reveal(word_head_text);
        assert(buffer@ =~= out0 + word_head_text(cs@, level, b0).0);
    }
}

/// Writes a `sep` or `default` option.
#[verifier::spinoff_prover]
#[verifier::rlimit(100)]
fn write_word_option(o: &SyntaxElement, buffer: &mut String, state: &mut State)
    requires
        tree_well_formed(*o),
        o.spec_kind() == SyntaxKind::PlaceholderSepOptionNode || o.spec_kind()
            == SyntaxKind::PlaceholderDefaultOptionNode,
        old(state).level() < usize::MAX,
    ensures
        final(buffer)@ == old(buffer)@ + option_text(
            *o,
            old(state).level() as nat,
            old(state).is_interrupted(),
        ).0,
        final(state).is_interrupted() == option_text(
            *o,
            old(state).level() as nat,
            old(state).is_interrupted(),
        ).1,
        final(state).level() == old(state).level(),
    decreases *o, 0int, 0int,
{
    let cs = o.children();
    let ghost out0 = buffer@;
    let vi = find_operand(cs);
    let ghost level = state.level() as nat;
    let ghost b0 = state.is_interrupted();
    write_word_head(cs, buffer, state);
    format_preceding_comments(cs, vi, buffer, state, true);
    state.space_or_indent(buffer);
    proof {
        lemma_child_decreases(*o, vi as int);
        lemma_children_well_formed(*o, cs@.len() as int, vi as int);
    }
    write_expr(&cs[vi], buffer, state);
    format_inline_comment(cs, vi, buffer, state, true);
    proof {
        reveal(word_option_text);
        assert(buffer@ =~= out0 + option_text(*o, level, b0).0);
    }
}

/// Writes a placeholder option.
pub fn write_option(o: &SyntaxElement, buffer: &mut String, state: &mut State)
    requires
        tree_well_formed(*o),
        is_option_kind(o.spec_kind()),
        old(state).level() < usize::MAX,
    ensures
        final(buffer)@ == old(buffer)@ + option_text(
            *o,
            old(state).level() as nat,
            old(state).is_interrupted(),
        ).0,
        final(state).is_interrupted() == option_text(
            *o,
            old(state).level() as nat,
            old(state).is_interrupted(),
        ).1,
        final(state).level() == old(state).level(),
    decreases *o, 1int, 0int,
{
    if o.kind() == SyntaxKind::PlaceholderTrueFalseOptionNode {
        write_true_false(o, buffer, state);
    } else {
        write_word_option(o, buffer, state);
    }
}

} // verus!
