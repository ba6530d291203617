//! Comments of a lossless syntax tree, in which whitespace and comments stand
//! as tokens among their siblings.
//!
//! Every comment belongs to one element of the tree. A preceding comment sits
//! on a line of its own before the element; an inline comment follows the
//! element on the element's line. Preceding comments are indented to the
//! element's level, and a single blank line between two of them is kept.
//! Inline comments start two spaces after the element.
use vstd::prelude::*;

use super::state::repeat;
use super::state::State;
use super::state::INDENT;
use super::syntax::SyntaxKind;
use crate::text::has_prefix;
use crate::text::spec_trim;
use crate::text::chars_of;
use crate::text::starts_with;
use crate::text::trim;
use crate::text::push_char;

verus! {

/// The end of a line.
pub const NEWLINE: &'static str = "\n";

/// What separates an element from its inline comment.
pub const INLINE_COMMENT_SPACE: &'static str = "  ";

/// An element of a lossless syntax tree: a node with its children, or a token
/// with its text. Whitespace and comments are tokens among their siblings.
#[derive(Debug)]
pub enum SyntaxElement {
    /// A node of the given kind with its children, in source order.
    Node(SyntaxKind, Vec<SyntaxElement>),
    /// A token of the given kind with its text.
    Token(SyntaxKind, String),
}

impl SyntaxElement {
    /// The kind of the element.
    pub open spec fn spec_kind(self) -> SyntaxKind {
        match self {
            SyntaxElement::Node(k, _) => k,
            SyntaxElement::Token(k, _) => k,
        }
    }

    /// The text of a token; a node has none of its own.
    pub open spec fn spec_text(self) -> Seq<char> {
        match self {
            SyntaxElement::Token(_, t) => t@,
            SyntaxElement::Node(_, _) => Seq::empty(),
        }
    }

    /// The children of a node; a token has none.
    pub open spec fn spec_children(self) -> Seq<SyntaxElement> {
        match self {
            SyntaxElement::Node(_, cs) => cs@,
            SyntaxElement::Token(_, _) => Seq::empty(),
        }
    }

    /// Gets the kind of the element.
    pub fn kind(&self) -> (k: SyntaxKind)
        ensures
            k == self.spec_kind(),
    {
        match self {
            SyntaxElement::Node(k, _) => *k,
            SyntaxElement::Token(k, _) => *k,
        }
    }

    /// Gets the text of a token (empty for a node).
    pub fn text(&self) -> (t: &str)
        ensures
            t@ == self.spec_text(),
    {
        match self {
            SyntaxElement::Token(_, t) => t.as_str(),
            SyntaxElement::Node(_, _) => {
                proof {
                    reveal_strlit("");
                }
                ""
            },
        }
    }

    /// Gets the children of a node (none for a token).
    pub fn children(&self) -> (cs: &[SyntaxElement])
        ensures
            cs@ == self.spec_children(),
    {
        match self {
            SyntaxElement::Node(_, cs) => cs.as_slice(),
            SyntaxElement::Token(_, _) => &[],
        }
    }
}

/// Whether the trivia among `sibs` is as a parser makes it: whitespace and
/// comments are tokens, and a comment starts with `#`.
pub open spec fn trivia_well_formed(sibs: Seq<SyntaxElement>) -> bool {
    forall|j: int|
        0 <= j < sibs.len() ==> {
            &&& (#[trigger] sibs[j]).spec_kind().spec_is_trivia() ==> sibs[j] is Token
            &&& sibs[j].spec_kind() == SyntaxKind::Comment ==> sibs[j].spec_text().len() > 0
                && sibs[j].spec_text()[0] == '#'
        }
}

/// The number of line feeds in `t`.
pub open spec fn count_newlines(t: Seq<char>) -> nat
    decreases t.len(),
{
    if t.len() == 0 {
        0
    } else {
        count_newlines(t.drop_last()) + if t.last() == '\n' {
            1nat
        } else {
            0nat
        }
    }
}

/// Whitespace that ends a line.
pub open spec fn is_line_break(e: SyntaxElement) -> bool {
    e.spec_kind() == SyntaxKind::Whitespace && count_newlines(e.spec_text()) > 0
}

/// Whitespace that holds a blank line.
pub open spec fn is_blank_lines(e: SyntaxElement) -> bool {
    e.spec_kind() == SyntaxKind::Whitespace && count_newlines(e.spec_text()) > 1
}

/// Whitespace within a line.
pub open spec fn is_same_line_space(e: SyntaxElement) -> bool {
    e.spec_kind() == SyntaxKind::Whitespace && count_newlines(e.spec_text()) == 0
}

/// Whether `sibs[j]` is a comment on a line of its own, which belongs to the
/// element that follows it.
pub open spec fn owned_comment(sibs: Seq<SyntaxElement>, j: int) -> bool {
    &&& 0 < j < sibs.len()
    &&& sibs[j].spec_kind() == SyntaxKind::Comment
    &&& is_line_break(sibs[j - 1])
}

/// A comment as written: trimmed, ended by a line feed, and with a doubled
/// `##` turned into `#` when a space follows it.
pub open spec fn comment_line(t: Seq<char>) -> Seq<char> {
    let c = spec_trim(t).push('\n');
    if has_prefix(c, seq!['#', '#', ' ']) {
        c.drop_first()
    } else {
        c
    }
}

/// The start of the run of trivia that ends just before `sibs[i]`.
pub open spec fn run_start(sibs: Seq<SyntaxElement>, i: int) -> int
    decreases i,
{
    if 0 < i <= sibs.len() && sibs[i - 1].spec_kind().spec_is_trivia() {
        run_start(sibs, i - 1)
    } else {
        i
    }
}

/// Whether a comment of its own line stands in `sibs[s..k]`.
pub open spec fn any_owned(sibs: Seq<SyntaxElement>, s: int, k: int) -> bool
    decreases k - s,
{
    if k <= s {
        false
    } else {
        any_owned(sibs, s, k - 1) || owned_comment(sibs, k - 1)
    }
}

/// The comments of their own lines in `sibs[s..k]`, each indented by `ind`,
/// with a blank line wherever one stood between two of them; and the number
/// of blank lines seen since the last of them.
pub open spec fn preceding_body(sibs: Seq<SyntaxElement>, s: int, k: int, ind: Seq<char>) -> (
    Seq<char>,
    nat,
)
    decreases k - s,
{
    if k <= s {
        (Seq::empty(), 0)
    } else {
        let (t, p) = preceding_body(sibs, s, k - 1, ind);
        if owned_comment(sibs, k - 1) {
            (t + repeat(NEWLINE@, p) + ind + comment_line(sibs[k - 1].spec_text()), 0)
        } else if any_owned(sibs, s, k - 1) && is_blank_lines(sibs[k - 1]) {
            (t, p + 1)
        } else {
            (t, p)
        }
    }
}

/// What the comments preceding `sibs[i]` add to the output, and whether the
/// line is interrupted afterwards, for a state at `level` that was
/// `interrupted` before. When the comments interrupt what would otherwise
/// stay on one line, a line feed comes first and the line is interrupted.
#[verifier::opaque]
pub open spec fn preceding_comments(
    sibs: Seq<SyntaxElement>,
    i: int,
    level: nat,
    interrupted: bool,
    interrupting: bool,
) -> (Seq<char>, bool) {
    let s = run_start(sibs, i);
    let found = any_owned(sibs, s, i);
    let now = interrupted || (interrupting && found);
    let ind = repeat(INDENT@, if now { level + 1 } else { level });
    let lead = if found && interrupting && !interrupted {
        NEWLINE@
    } else {
        Seq::empty()
    };
    (lead + preceding_body(sibs, s, i, ind).0, now)
}

/// The first index from `j` on that is not whitespace within a line.
pub open spec fn inline_end(sibs: Seq<SyntaxElement>, j: int) -> int
    decreases sibs.len() - j,
{
    if 0 <= j < sibs.len() && is_same_line_space(sibs[j]) {
        inline_end(sibs, j + 1)
    } else {
        j
    }
}

/// What the comment on the line of `sibs[i]` adds to the output, and whether
/// it interrupts the line. Without such a comment, a line feed ends the line
/// unless the element would be interrupting.
#[verifier::opaque]
pub open spec fn inline_comment(sibs: Seq<SyntaxElement>, i: int, interrupting: bool) -> (
    Seq<char>,
    bool,
) {
    let j = inline_end(sibs, i + 1);
    if j < sibs.len() && sibs[j].spec_kind() == SyntaxKind::Comment {
        (INLINE_COMMENT_SPACE@ + comment_line(sibs[j].spec_text()), interrupting)
    } else if interrupting {
        (Seq::empty(), false)
    } else {
        (NEWLINE@, false)
    }
}

/// Counts the line feeds of `t`.
pub fn newline_count(t: &str) -> (n: usize)
    ensures
        n == count_newlines(t@),
{
    let chars = chars_of(t);
    let mut n: usize = 0;
    let mut i: usize = 0;
    while i < chars.len()
        invariant
            i <= chars@.len(),
            chars@ == t@,
            n <= i,
            n == count_newlines(chars@.take(i as int)),
        decreases chars@.len() - i,
    {
        assert(chars@.take(i + 1int).drop_last() =~= chars@.take(i as int));
        if chars[i] == '\n' {
            n = n + 1;
        }
        i = i + 1;
    }
    assert(chars@.take(i as int) =~= chars@);
    n
}

/// Whether `e` ends a line.
fn line_break(e: &SyntaxElement) -> (b: bool)
    ensures
        b == is_line_break(*e),
{
    e.kind() == SyntaxKind::Whitespace && newline_count(e.text()) > 0
}

/// Whether `sibs[j]` is a comment on a line of its own.
fn owns(sibs: &[SyntaxElement], j: usize) -> (b: bool)
    requires
        j < sibs@.len(),
    ensures
        b == owned_comment(sibs@, j as int),
{
    j > 0 && sibs[j].kind() == SyntaxKind::Comment && line_break(&sibs[j - 1])
}

/// Writes a comment as [`comment_line`] describes it.
pub fn write_comment(text: &str, buffer: &mut String)
    ensures
        final(buffer)@ == old(buffer)@ + comment_line(text@),
{
    let t = trim(text);
    let mut chars = chars_of(t.as_str());
    chars.push('\n');
    let prefix = ['#', '#', ' '];
    assert(prefix@ == seq!['#', '#', ' ']);
    if starts_with(chars.as_slice(), prefix.as_slice()) {
        chars.remove(0);
    }
    let mut i: usize = 0;
    let ghost start = buffer@;
    while i < chars.len()
        invariant
            i <= chars@.len(),
            buffer@ == start + chars@.take(i as int),
        decreases chars@.len() - i,
    {
        push_char(buffer, chars[i]);
        i = i + 1;
        assert(buffer@ =~= start + chars@.take(i as int));
    }
    assert(chars@.take(i as int) =~= chars@);
}

/// Writes the comments that precede `siblings[index]` and belong to it.
///
/// Each comment is indented to the state's level; a blank line between two
/// comments is kept, other blank lines are dropped. When
/// `would_be_interrupting` is set and a comment is found, the line counts as
/// interrupted, and a line feed comes first unless it was interrupted
/// already.
pub fn format_preceding_comments(
    siblings: &[SyntaxElement],
    index: usize,
    buffer: &mut String,
    state: &mut State,
    would_be_interrupting: bool,
)
    requires
        index <= siblings@.len(),
        trivia_well_formed(siblings@),
        old(state).level() < usize::MAX,
    ensures
        final(buffer)@ == old(buffer)@ + preceding_comments(
            siblings@,
            index as int,
            old(state).level() as nat,
            old(state).is_interrupted(),
            would_be_interrupting,
        ).0,
        final(state).is_interrupted() == preceding_comments(
            siblings@,
            index as int,
            old(state).level() as nat,
            old(state).is_interrupted(),
            would_be_interrupting,
        ).1,
        final(state).level() == old(state).level(),
{
    reveal(preceding_comments);
    let ghost sibs = siblings@;
    let mut s = index;
    while s > 0 && siblings[s - 1].kind().is_trivia()
        invariant
            s <= index <= sibs.len(),
            sibs == siblings@,
            run_start(sibs, s as int) == run_start(sibs, index as int),
        decreases s,
    {
        s = s - 1;
    }
    let mut found = false;
    let mut k = s;
    while k < index
        invariant
            s <= k <= index <= sibs.len(),
            sibs == siblings@,
            found == any_owned(sibs, s as int, k as int),
        decreases index - k,
    {
        if owns(siblings, k) {
            found = true;
        }
        k = k + 1;
    }
    let began = state.interrupted();
    if found && would_be_interrupting {
        if !began {
            buffer.append(NEWLINE);
        }
        state.interrupt();
    }
    let ghost ind = repeat(INDENT@, state.effective_level());
    let ghost start = buffer@;
    let mut pending: usize = 0;
    let mut seen = false;
    k = s;
    while k < index
        invariant
            s <= k <= index <= sibs.len(),
            sibs == siblings@,
            state.level() < usize::MAX,
            ind == repeat(INDENT@, state.effective_level()),
            seen == any_owned(sibs, s as int, k as int),
            pending <= k,
            buffer@ == start + preceding_body(sibs, s as int, k as int, ind).0,
            pending == preceding_body(sibs, s as int, k as int, ind).1,
        decreases index - k,
    {
        let e = &siblings[k];
        if owns(siblings, k) {
            crate::format::state::append_repeated(buffer, NEWLINE, pending);
            state.indent(buffer);
            write_comment(e.text(), buffer);
            pending = 0;
            seen = true;
        } else {
            if seen && e.kind() == SyntaxKind::Whitespace && newline_count(e.text()) > 1 {
                pending = pending + 1;
            }
        }
        k = k + 1;
    }
}

/// Writes the comment on the line of `siblings[index]`, two spaces after
/// it; with `would_be_interrupting` set, such a comment interrupts the line.
/// Without a comment, a line feed ends the line unless
/// `would_be_interrupting` is set.
pub fn format_inline_comment(
    siblings: &[SyntaxElement],
    index: usize,
    buffer: &mut String,
    state: &mut State,
    would_be_interrupting: bool,
)
    requires
        index < siblings@.len(),
    ensures
        final(buffer)@ == old(buffer)@ + inline_comment(
            siblings@,
            index as int,
            would_be_interrupting,
        ).0,
        final(state).is_interrupted() == (old(state).is_interrupted() || inline_comment(
            siblings@,
            index as int,
            would_be_interrupting,
        ).1),
        final(state).level() == old(state).level(),
{
    reveal(inline_comment);
    let ghost sibs = siblings@;
    let n = siblings.len();
    let mut j = index + 1;
    while j < n && siblings[j].kind() == SyntaxKind::Whitespace && newline_count(
        siblings[j].text(),
    ) == 0
        invariant
            index < j <= sibs.len(),
            n == sibs.len(),
            sibs == siblings@,
            inline_end(sibs, j as int) == inline_end(sibs, index + 1),
        decreases sibs.len() - j,
    {
        j = j + 1;
    }
    if j < siblings.len() && siblings[j].kind() == SyntaxKind::Comment {
        buffer.append(INLINE_COMMENT_SPACE);
        if would_be_interrupting {
            state.interrupt();
        }
        write_comment(siblings[j].text(), buffer);
    } else if !would_be_interrupting {
        buffer.append(NEWLINE);
    }
}

} // verus!
