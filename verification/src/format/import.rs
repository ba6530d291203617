//! Formatting of import statements over a lossless syntax tree.
use vstd::prelude::*;

use super::comments::format_inline_comment;
use super::comments::format_preceding_comments;
use super::comments::inline_comment;
use super::comments::preceding_comments;
use super::comments::trivia_well_formed;
use super::comments::SyntaxElement;
use super::state::repeat;
use super::state::State;
use super::state::INDENT;
use super::state::SPACE;
use super::syntax::SyntaxKind;
use crate::text::push_char;

verus! {

/// What [`State::space_or_indent`] writes: a space, or one indentation more
/// than the level when the line was interrupted.
pub open spec fn space_or_indent_text(level: nat, interrupted: bool) -> Seq<char> {
    if interrupted {
        repeat(INDENT@, level + 1)
    } else {
        SPACE@
    }
}

/// The inline comment of `sibs[j]` and whether the line is interrupted
/// afterwards, from `interrupted` before.
pub open spec fn inline_after(sibs: Seq<SyntaxElement>, j: int, interrupted: bool, interrupting: bool) -> (
    Seq<char>,
    bool,
) {
    let (t, b) = inline_comment(sibs, j, interrupting);
    (t, interrupted || b)
}

/// The index of the first element of kind `k` in `cs`, or `cs.len()` when
/// there is none.
pub open spec fn first_of_kind(cs: Seq<SyntaxElement>, k: SyntaxKind) -> int
    decreases cs.len(),
{
    if cs.len() == 0 {
        0
    } else if cs[0].spec_kind() == k {
        0
    } else {
        1 + first_of_kind(cs.drop_first(), k)
    }
}

/// The texts of the literal-text tokens among `cs`, in order.
pub open spec fn string_text(cs: Seq<SyntaxElement>) -> Seq<char>
    decreases cs.len(),
{
    if cs.len() == 0 {
        Seq::empty()
    } else {
        string_text(cs.drop_last()) + if cs.last().spec_kind() == SyntaxKind::LiteralStringText {
            cs.last().spec_text()
        } else {
            Seq::empty()
        }
    }
}

/// A literal string as written: its text between double quotes.
pub open spec fn literal_string_text(e: SyntaxElement) -> Seq<char> {
    seq!['"'] + string_text(e.spec_children()) + seq!['"']
}

/// One part of an import alias clause `ac[k]`, from a line that is
/// `interrupted` and a flag telling whether its first name was written; the
/// result also gives the line's state and the flag afterwards.
#[verifier::opaque]
pub open spec fn alias_step(
    ac: Seq<SyntaxElement>,
    k: int,
    level: nat,
    interrupted: bool,
    second: bool,
) -> (Seq<char>, bool, bool) {
    let e = ac[k];
    let kind = e.spec_kind();
    if kind == SyntaxKind::AliasKeyword {
        let s = space_or_indent_text(level, interrupted);
        let (t, b) = inline_after(ac, k, false, true);
        (s + e.spec_text() + t, b, second)
    } else if kind == SyntaxKind::Ident {
        let (p, b1) = preceding_comments(ac, k, level, interrupted, true);
        let s = space_or_indent_text(level, b1);
        let (t, b2) = if !second {
            inline_after(ac, k, false, true)
        } else {
            (Seq::empty(), false)
        };
        (p + s + e.spec_text() + t, b2, true)
    } else if kind == SyntaxKind::AsKeyword {
        let (p, b1) = preceding_comments(ac, k, level, interrupted, true);
        let s = space_or_indent_text(level, b1);
        let (t, b2) = inline_after(ac, k, false, true);
        (p + s + e.spec_text() + t, b2, second)
    } else {
        (Seq::empty(), interrupted, second)
    }
}

/// The first `n` parts of an alias clause, written in turn.
pub open spec fn alias_parts(
    ac: Seq<SyntaxElement>,
    n: int,
    level: nat,
    interrupted: bool,
) -> (Seq<char>, bool, bool)
    decreases n,
{
    if n <= 0 {
        (Seq::empty(), interrupted, false)
    } else {
        let (t, b, second) = alias_parts(ac, n - 1, level, interrupted);
        let (t2, b2, second2) = alias_step(ac, n - 1, level, b, second);
        (t + t2, b2, second2)
    }
}

/// One element `cs[j]` of an import statement after its URI.
#[verifier::opaque]
pub open spec fn import_step(cs: Seq<SyntaxElement>, j: int, level: nat, interrupted: bool) -> (
    Seq<char>,
    bool,
) {
    let e = cs[j];
    let kind = e.spec_kind();
    if kind == SyntaxKind::AsKeyword || kind == SyntaxKind::Ident {
        let (p, b1) = preceding_comments(cs, j, level, interrupted, true);
        let s = space_or_indent_text(level, b1);
        let (t, b2) = inline_after(cs, j, false, true);
        (p + s + e.spec_text() + t, b2)
    } else if kind == SyntaxKind::ImportAliasNode {
        let (p, b1) = preceding_comments(cs, j, level, interrupted, true);
        let ac = e.spec_children();
        let (a, b2, _) = alias_parts(ac, ac.len() as int, level, b1);
        let (t, b3) = inline_after(cs, j, b2, true);
        (p + a + t, b3)
    } else {
        (Seq::empty(), interrupted)
    }
}

/// The elements `cs[from..n]` of an import statement, written in turn.
pub open spec fn import_steps(
    cs: Seq<SyntaxElement>,
    from: int,
    n: int,
    level: nat,
    interrupted: bool,
) -> (Seq<char>, bool)
    decreases n - from,
{
    if n <= from {
        (Seq::empty(), interrupted)
    } else {
        let (t, b) = import_steps(cs, from, n - 1, level, interrupted);
        let (t2, b2) = import_step(cs, n - 1, level, b);
        (t + t2, b2)
    }
}

/// An import statement `sibs[i]` as written at `level` from a line that is
/// `interrupted`: its preceding comments, the `import` keyword, the URI, the
/// namespace and the alias clauses, each with the comments that belong to
/// it, and its inline comment; with whether the line is interrupted
/// afterwards.
#[verifier::opaque]
pub open spec fn import_statement_text(
    sibs: Seq<SyntaxElement>,
    i: int,
    level: nat,
    interrupted: bool,
) -> (Seq<char>, bool) {
    let cs = sibs[i].spec_children();
    let (t1, b1) = preceding_comments(sibs, i, level, interrupted, false);
    let ki = first_of_kind(cs, SyntaxKind::ImportKeyword);
    let (t2, b2) = inline_after(cs, ki, b1, true);
    let ui = first_of_kind(cs, SyntaxKind::LiteralStringNode);
    let (t3, b3) = preceding_comments(cs, ui, level, b2, true);
    let s = space_or_indent_text(level, b3);
    let (t4, b4) = inline_after(cs, ui, false, true);
    let (t5, b5) = import_steps(cs, ui + 1, cs.len() as int, level, b4);
    let (t6, b6) = inline_after(sibs, i, b5, false);
    (t1 + cs[ki].spec_text() + t2 + t3 + s + literal_string_text(cs[ui]) + t4 + t5 + t6, b6)
}

/// Whether an alias clause holds only what one can hold.
pub open spec fn alias_clause_well_formed(ac: Seq<SyntaxElement>) -> bool {
    &&& trivia_well_formed(ac)
    &&& forall|k: int|
        0 <= k < ac.len() ==> {
            let kind = (#[trigger] ac[k]).spec_kind();
            ||| kind == SyntaxKind::AliasKeyword
            ||| kind == SyntaxKind::Ident
            ||| kind == SyntaxKind::AsKeyword
            ||| kind == SyntaxKind::ImportAliasNode
            ||| kind.spec_is_trivia()
        }
}

/// Whether `sibs[i]` is an import statement as a parser makes it: it has an
/// `import` keyword and a URI without placeholders, after which come only
/// the `as` keyword, names, alias clauses and trivia.
pub open spec fn import_well_formed(sibs: Seq<SyntaxElement>, i: int) -> bool {
    let cs = sibs[i].spec_children();
    let ui = first_of_kind(cs, SyntaxKind::LiteralStringNode);
    &&& 0 <= i < sibs.len()
    &&& sibs[i] is Node
    &&& sibs[i].spec_kind() == SyntaxKind::ImportStatementNode
    &&& trivia_well_formed(sibs)
    &&& trivia_well_formed(cs)
    &&& first_of_kind(cs, SyntaxKind::ImportKeyword) < cs.len()
    &&& ui < cs.len()
    &&& cs[ui] is Node
    &&& forall|k: int|
        0 <= k < cs[ui].spec_children().len() ==> #[trigger] cs[ui].spec_children()[k] is Token
    &&& forall|j: int|
        ui < j < cs.len() ==> {
            let kind = (#[trigger] cs[j]).spec_kind();
            ||| kind == SyntaxKind::AsKeyword
            ||| kind == SyntaxKind::Ident
            ||| (kind == SyntaxKind::ImportAliasNode && alias_clause_well_formed(
                cs[j].spec_children(),
            ))
            ||| kind.spec_is_trivia()
        }
}

/// Finds the first element of kind `k`.
pub fn find_kind(cs: &[SyntaxElement], k: SyntaxKind) -> (i: usize)
    ensures
        i == first_of_kind(cs@, k),
        i <= cs@.len(),
        i < cs@.len() ==> cs@[i as int].spec_kind() == k,
{
    let mut i: usize = 0;
    assert(cs@.skip(0) =~= cs@);
    while i < cs.len() && cs[i].kind() != k
        invariant
            i <= cs@.len(),
            first_of_kind(cs@, k) == i + first_of_kind(cs@.skip(i as int), k),
        decreases cs@.len() - i,
    {
        assert(cs@.skip(i as int).drop_first() =~= cs@.skip(i + 1int));
        i = i + 1;
    }
    proof {
        if i < cs@.len() {
            assert(cs@.skip(i as int)[0] == cs@[i as int]);
        }
    }
    i
}

/// Writes a literal string: its text between double quotes.
fn write_literal_string(e: &SyntaxElement, buffer: &mut String)
    ensures
        final(buffer)@ == old(buffer)@ + literal_string_text(*e),
{
    let cs = e.children();
    push_char(buffer, '"');
    let ghost start = buffer@;
    let mut k: usize = 0;
    while k < cs.len()
        invariant
            k <= cs@.len(),
            cs@ == e.spec_children(),
            buffer@ == start + string_text(cs@.take(k as int)),
        decreases cs@.len() - k,
    {
        assert(cs@.take(k + 1int).drop_last() =~= cs@.take(k as int));
        if cs[k].kind() == SyntaxKind::LiteralStringText {
            buffer.append(cs[k].text());
        }
        k = k + 1;
    }
    assert(cs@.take(k as int) =~= cs@);
    push_char(buffer, '"');
}

/// Writes the parts of an alias clause.
fn write_alias_parts(ac: &[SyntaxElement], buffer: &mut String, state: &mut State)
    requires
        alias_clause_well_formed(ac@),
        old(state).level() < usize::MAX,
    ensures
        final(buffer)@ == old(buffer)@ + alias_parts(
            ac@,
            ac@.len() as int,
            old(state).level() as nat,
            old(state).is_interrupted(),
        ).0,
        final(state).is_interrupted() == alias_parts(
            ac@,
            ac@.len() as int,
            old(state).level() as nat,
            old(state).is_interrupted(),
        ).1,
        final(state).level() == old(state).level(),
{
    let ghost level = state.level() as nat;
    let ghost b0 = state.is_interrupted();
    let ghost start = buffer@;
    let mut second = false;
    let mut k: usize = 0;
    while k < ac.len()
        invariant
            k <= ac@.len(),
            alias_clause_well_formed(ac@),
            state.level() == level,
            level < usize::MAX,
            buffer@ == start + alias_parts(ac@, k as int, level, b0).0,
            state.is_interrupted() == alias_parts(ac@, k as int, level, b0).1,
            second == alias_parts(ac@, k as int, level, b0).2,
        decreases ac@.len() - k,
    {
        second = write_alias_step(ac, k, buffer, state, second);
        k = k + 1;
    }
}

/// Writes one part of an alias clause; returns whether its first name has
/// been written.
fn write_alias_step(
    ac: &[SyntaxElement],
    k: usize,
    buffer: &mut String,
    state: &mut State,
    second: bool,
) -> (r: bool)
    requires
        k < ac@.len(),
        alias_clause_well_formed(ac@),
        old(state).level() < usize::MAX,
    ensures
        final(buffer)@ == old(buffer)@ + alias_step(
            ac@,
            k as int,
            old(state).level() as nat,
            old(state).is_interrupted(),
            second,
        ).0,
        final(state).is_interrupted() == alias_step(
            ac@,
            k as int,
            old(state).level() as nat,
            old(state).is_interrupted(),
            second,
        ).1,
        r == alias_step(
            ac@,
            k as int,
            old(state).level() as nat,
            old(state).is_interrupted(),
            second,
        ).2,
        final(state).level() == old(state).level(),
{
    reveal(alias_step);
    let kind = ac[k].kind();
    let mut second = second;
    if kind == SyntaxKind::AliasKeyword {
        state.space_or_indent(buffer);
        buffer.append(ac[k].text());
        format_inline_comment(ac, k, buffer, state, true);
    } else if kind == SyntaxKind::Ident {
        format_preceding_comments(ac, k, buffer, state, true);
        state.space_or_indent(buffer);
        buffer.append(ac[k].text());
        if !second {
            format_inline_comment(ac, k, buffer, state, true);
        }
        second = true;
    } else if kind == SyntaxKind::AsKeyword {
        format_preceding_comments(ac, k, buffer, state, true);
        state.space_or_indent(buffer);
        buffer.append(ac[k].text());
        format_inline_comment(ac, k, buffer, state, true);
    }
    second
}

/// Writes one element of an import statement after its URI.
fn write_import_step(cs: &[SyntaxElement], j: usize, buffer: &mut String, state: &mut State)
    requires
        j < cs@.len(),
        trivia_well_formed(cs@),
        cs@[j as int].spec_kind() == SyntaxKind::ImportAliasNode ==> alias_clause_well_formed(
            cs@[j as int].spec_children(),
        ),
        old(state).level() < usize::MAX,
    ensures
        final(buffer)@ == old(buffer)@ + import_step(
            cs@,
            j as int,
            old(state).level() as nat,
            old(state).is_interrupted(),
        ).0,
        final(state).is_interrupted() == import_step(
            cs@,
            j as int,
            old(state).level() as nat,
            old(state).is_interrupted(),
        ).1,
        final(state).level() == old(state).level(),
{
    reveal(import_step);
    let kind = cs[j].kind();
    if kind == SyntaxKind::AsKeyword || kind == SyntaxKind::Ident {
        format_preceding_comments(cs, j, buffer, state, true);
        state.space_or_indent(buffer);
        buffer.append(cs[j].text());
        if kind == SyntaxKind::AsKeyword {
            state.reset_interrupted();
        }
        format_inline_comment(cs, j, buffer, state, true);
    } else if kind == SyntaxKind::ImportAliasNode {
        format_preceding_comments(cs, j, buffer, state, true);
        write_alias_parts(cs[j].children(), buffer, state);
        format_inline_comment(cs, j, buffer, state, true);
    }
}

/// Writes the elements `cs[from..]` of an import statement.
fn write_import_steps(cs: &[SyntaxElement], from: usize, buffer: &mut String, state: &mut State)
    requires
        from <= cs@.len(),
        trivia_well_formed(cs@),
        forall|j: int|
            from <= j < cs@.len() && (#[trigger] cs@[j]).spec_kind() == SyntaxKind::ImportAliasNode
                ==> alias_clause_well_formed(cs@[j].spec_children()),
        old(state).level() < usize::MAX,
    ensures
        final(buffer)@ == old(buffer)@ + import_steps(
            cs@,
            from as int,
            cs@.len() as int,
            old(state).level() as nat,
            old(state).is_interrupted(),
        ).0,
        final(state).is_interrupted() == import_steps(
            cs@,
            from as int,
            cs@.len() as int,
            old(state).level() as nat,
            old(state).is_interrupted(),
        ).1,
        final(state).level() == old(state).level(),
{
    let ghost level = state.level() as nat;
    let ghost b0 = state.is_interrupted();
    let ghost start = buffer@;
    let mut j = from;
    while j < cs.len()
        invariant
            from <= j <= cs@.len(),
            trivia_well_formed(cs@),
            forall|j: int|
                from <= j < cs@.len() && (#[trigger] cs@[j]).spec_kind()
                    == SyntaxKind::ImportAliasNode ==> alias_clause_well_formed(
                    cs@[j].spec_children(),
                ),
            state.level() == level,
            level < usize::MAX,
            buffer@ == start + import_steps(cs@, from as int, j as int, level, b0).0,
            state.is_interrupted() == import_steps(cs@, from as int, j as int, level, b0).1,
        decreases cs@.len() - j,
    {
        write_import_step(cs, j, buffer, state);
        j = j + 1;
    }
}

/// An import statement among its siblings: `siblings[index]`.
pub struct ImportStatement<'a> {
    /// The elements among which the statement stands.
    pub siblings: &'a [SyntaxElement],
    /// The position of the statement among them.
    pub index: usize,
}

impl<'a> ImportStatement<'a> {
    /// Writes the import statement: its preceding comments, the `import`
    /// keyword, its URI, namespace and alias clauses separated by spaces (or
    /// on new, further indented lines where comments interrupt them), and
    /// its inline comment or a line feed.
    pub fn format(&self, buffer: &mut String, state: &mut State)
        requires
            import_well_formed(self.siblings@, self.index as int),
            old(state).level() < usize::MAX,
        ensures
            final(buffer)@ == old(buffer)@ + import_statement_text(
                self.siblings@,
                self.index as int,
                old(state).level() as nat,
                old(state).is_interrupted(),
            ).0,
            final(state).is_interrupted() == import_statement_text(
                self.siblings@,
                self.index as int,
                old(state).level() as nat,
                old(state).is_interrupted(),
            ).1,
            final(state).level() == old(state).level(),
    {
        let sibs = self.siblings;
        let i = self.index;
        let ghost level = state.level() as nat;
        let ghost b0 = state.is_interrupted();
        let ghost out0 = buffer@;
        format_preceding_comments(sibs, i, buffer, state, false);
        let ghost out1 = buffer@;
        let cs = sibs[i].children();
        let ki = find_kind(cs, SyntaxKind::ImportKeyword);
        buffer.append(cs[ki].text());
        let ghost out2 = buffer@;
        format_inline_comment(cs, ki, buffer, state, true);
        let ghost out3 = buffer@;
        let ui = find_kind(cs, SyntaxKind::LiteralStringNode);
        format_preceding_comments(cs, ui, buffer, state, true);
        let ghost out4 = buffer@;
        state.space_or_indent(buffer);
        let ghost out5 = buffer@;
        write_literal_string(&cs[ui], buffer);
        let ghost out6 = buffer@;
        format_inline_comment(cs, ui, buffer, state, true);
        let ghost out7 = buffer@;
        write_import_steps(cs, ui + 1, buffer, state);
        let ghost out8 = buffer@;
        format_inline_comment(sibs, i, buffer, state, false);
        proof {
            reveal(import_statement_text);
            assert(buffer@ =~= out0 + import_statement_text(sibs@, i as int, level, b0).0);
        }
    }
}

} // verus!
