//! Tokens emitted while formatting particular elements.
//!
//! These are written by elements into a [`TokenStream`] of [`PreToken`]s,
//! which a [`Postprocessor`](super::post::Postprocessor) then turns into
//! [`PostToken`](super::post::PostToken)s.
use vstd::prelude::*;

use super::syntax::SyntaxKind;
use super::token::{
    lemma_trim_same_suffix, lemma_trim_suffix_map, trim_same, trim_suffix, Token, TokenStream,
};
use crate::text::{spec_trim_end, trim_end};

verus! {

/// Whether blank lines are allowed in the current context.
#[derive(Clone, Copy, Debug, PartialEq, Eq, Structural)]
pub enum BlankLinesAllowed {
    /// Blank lines are allowed.
    Yes,
    /// Blank lines are not allowed.
    No,
    /// Blank lines are allowed only before comments.
    BetweenComments,
}

/// A comment.
#[derive(Debug)]
pub enum Comment {
    /// A comment on its own line(s) preceding a token.
    Preceding(String),
    /// A comment at the end of a line, following a token.
    Inline(String),
}

/// Trivia: a blank line or a comment.
#[derive(Debug)]
pub enum Trivia {
    /// A blank line, kept only where the context allows it.
    BlankLine,
    /// A comment.
    Comment(Comment),
}

/// A token that can be written by elements.
#[derive(Debug)]
pub enum PreToken {
    /// A blank line.
    BlankLine,
    /// The end of a line.
    LineEnd,
    /// The end of a word.
    WordEnd,
    /// The start of an indented block.
    IndentStart,
    /// The end of an indented block.
    IndentEnd,
    /// The context for blank lines.
    BlankLinesContext(BlankLinesAllowed),
    /// Literal text.
    Literal(String, SyntaxKind),
    /// Trivia.
    Trivia(Trivia),
}

impl Clone for Comment {
    fn clone(&self) -> (c: Self)
        ensures
            c == *self,
    {
        match self {
            Comment::Preceding(s) => Comment::Preceding(s.clone()),
            Comment::Inline(s) => Comment::Inline(s.clone()),
        }
    }
}

impl Clone for Trivia {
    fn clone(&self) -> (c: Self)
        ensures
            c == *self,
    {
        match self {
            Trivia::BlankLine => Trivia::BlankLine,
            Trivia::Comment(c) => Trivia::Comment(c.clone()),
        }
    }
}

impl Clone for PreToken {
    fn clone(&self) -> (c: Self)
        ensures
            c == *self,
    {
        match self {
            PreToken::BlankLine => PreToken::BlankLine,
            PreToken::LineEnd => PreToken::LineEnd,
            PreToken::WordEnd => PreToken::WordEnd,
            PreToken::IndentStart => PreToken::IndentStart,
            PreToken::IndentEnd => PreToken::IndentEnd,
            PreToken::BlankLinesContext(b) => PreToken::BlankLinesContext(*b),
            PreToken::Literal(s, k) => PreToken::Literal(s.clone(), *k),
            PreToken::Trivia(t) => PreToken::Trivia(t.clone()),
        }
    }
}

/// Whether two comments are the same comment.
pub open spec fn same_comment(a: Comment, b: Comment) -> bool {
    match (a, b) {
        (Comment::Preceding(x), Comment::Preceding(y)) => x@ == y@,
        (Comment::Inline(x), Comment::Inline(y)) => x@ == y@,
        _ => false,
    }
}

/// Whether two pieces of trivia are the same.
pub open spec fn same_trivia(a: Trivia, b: Trivia) -> bool {
    match (a, b) {
        (Trivia::BlankLine, Trivia::BlankLine) => true,
        (Trivia::Comment(x), Trivia::Comment(y)) => same_comment(x, y),
        _ => false,
    }
}

impl Token for PreToken {
    open spec fn same_as(&self, other: &Self) -> bool {
        match (*self, *other) {
            (PreToken::BlankLine, PreToken::BlankLine) => true,
            (PreToken::LineEnd, PreToken::LineEnd) => true,
            (PreToken::WordEnd, PreToken::WordEnd) => true,
            (PreToken::IndentStart, PreToken::IndentStart) => true,
            (PreToken::IndentEnd, PreToken::IndentEnd) => true,
            (PreToken::BlankLinesContext(a), PreToken::BlankLinesContext(b)) => a == b,
            (PreToken::Literal(a, k), PreToken::Literal(b, l)) => a@ == b@ && k == l,
            (PreToken::Trivia(a), PreToken::Trivia(b)) => same_trivia(a, b),
            _ => false,
        }
    }

    fn same(&self, other: &Self) -> (b: bool) {
        match (self, other) {
            (PreToken::BlankLine, PreToken::BlankLine) => true,
            (PreToken::LineEnd, PreToken::LineEnd) => true,
            (PreToken::WordEnd, PreToken::WordEnd) => true,
            (PreToken::IndentStart, PreToken::IndentStart) => true,
            (PreToken::IndentEnd, PreToken::IndentEnd) => true,
            (PreToken::BlankLinesContext(a), PreToken::BlankLinesContext(b)) => *a == *b,
            (PreToken::Literal(a, k), PreToken::Literal(b, l)) => *a == *b && *k == *l,
            (PreToken::Trivia(a), PreToken::Trivia(b)) => match (a, b) {
                (Trivia::BlankLine, Trivia::BlankLine) => true,
                (Trivia::Comment(x), Trivia::Comment(y)) => match (x, y) {
                    (Comment::Preceding(x), Comment::Preceding(y)) => *x == *y,
                    (Comment::Inline(x), Comment::Inline(y)) => *x == *y,
                    _ => false,
                },
                _ => false,
            },
            _ => false,
        }
    }
}

/// A blank line, whether required or optional.
pub open spec fn is_blank(t: PreToken) -> bool {
    t matches PreToken::BlankLine || t matches PreToken::Trivia(Trivia::BlankLine)
}

/// The end of a word or of a line.
pub open spec fn is_word_or_line_end(t: PreToken) -> bool {
    t matches PreToken::WordEnd || t matches PreToken::LineEnd
}

/// The stream after [`TokenStream::blank_line`].
pub open spec fn spec_blank_line(s: Seq<PreToken>) -> Seq<PreToken> {
    trim_suffix(s, |t: PreToken| is_blank(t)).push(PreToken::BlankLine)
}

/// The stream after [`TokenStream::end_line`].
pub open spec fn spec_end_line(s: Seq<PreToken>) -> Seq<PreToken> {
    trim_suffix(s, |t: PreToken| is_word_or_line_end(t)).push(PreToken::LineEnd)
}

/// The stream after [`TokenStream::end_word`].
pub open spec fn spec_end_word(s: Seq<PreToken>) -> Seq<PreToken> {
    trim_same(s, PreToken::WordEnd).push(PreToken::WordEnd)
}

/// A piece of trivia preceding a token in the source.
#[derive(Debug)]
pub enum SourceTrivia {
    /// Whitespace.
    Whitespace,
    /// A comment with its text.
    Comment(String),
}

/// A token of the source with the trivia around it.
#[derive(Debug)]
pub struct SourceToken {
    /// The token's text.
    pub text: String,
    /// The token's kind.
    pub kind: SyntaxKind,
    /// The trivia preceding the token, in source order.
    pub preceding: Vec<SourceTrivia>,
    /// The text of the comment following the token on its line, if any.
    pub inline_comment: Option<String>,
}

/// A token with its texts taken as character sequences.
pub enum PreView {
    /// A blank line.
    BlankLine,
    /// The end of a line.
    LineEnd,
    /// The end of a word.
    WordEnd,
    /// The start of an indented block.
    IndentStart,
    /// The end of an indented block.
    IndentEnd,
    /// The context for blank lines.
    BlankLinesContext(BlankLinesAllowed),
    /// Literal text of a kind.
    Literal(Seq<char>, SyntaxKind),
    /// A blank line kept only where the context allows it.
    OptionalBlankLine,
    /// A comment on its own line(s) preceding a token.
    PrecedingComment(Seq<char>),
    /// A comment at the end of a line.
    InlineComment(Seq<char>),
}

impl View for PreToken {
    type V = PreView;

    open spec fn view(&self) -> PreView {
        match *self {
            PreToken::BlankLine => PreView::BlankLine,
            PreToken::LineEnd => PreView::LineEnd,
            PreToken::WordEnd => PreView::WordEnd,
            PreToken::IndentStart => PreView::IndentStart,
            PreToken::IndentEnd => PreView::IndentEnd,
            PreToken::BlankLinesContext(b) => PreView::BlankLinesContext(b),
            PreToken::Literal(s, k) => PreView::Literal(s@, k),
            PreToken::Trivia(Trivia::BlankLine) => PreView::OptionalBlankLine,
            PreToken::Trivia(Trivia::Comment(Comment::Preceding(s))) => PreView::PrecedingComment(
                s@,
            ),
            PreToken::Trivia(Trivia::Comment(Comment::Inline(s))) => PreView::InlineComment(s@),
        }
    }
}

/// The tokens of a stream, each taken by its view.
pub open spec fn views(s: Seq<PreToken>) -> Seq<PreView> {
    s.map_values(|t: PreToken| t@)
}

/// A blank line, whether required or optional.
pub open spec fn view_is_blank(t: PreView) -> bool {
    t is BlankLine || t is OptionalBlankLine
}

/// The end of a word or of a line.
pub open spec fn view_ends_word_or_line(t: PreView) -> bool {
    t is WordEnd || t is LineEnd
}

/// The tokens after [`TokenStream::blank_line`].
pub open spec fn blank_line_view(v: Seq<PreView>) -> Seq<PreView> {
    trim_suffix(v, |t: PreView| view_is_blank(t)).push(PreView::BlankLine)
}

/// The tokens after [`TokenStream::end_line`].
pub open spec fn end_line_view(v: Seq<PreView>) -> Seq<PreView> {
    trim_suffix(v, |t: PreView| view_ends_word_or_line(t)).push(PreView::LineEnd)
}

/// The tokens after [`TokenStream::end_word`].
pub open spec fn end_word_view(v: Seq<PreView>) -> Seq<PreView> {
    trim_suffix(v, |t: PreView| t == PreView::WordEnd).push(PreView::WordEnd)
}

/// The tokens after one piece of preceding trivia: whitespace becomes an
/// optional blank line unless the tokens already end with a blank line; a
/// comment becomes a preceding comment without its trailing whitespace.
pub open spec fn push_trivia_view(v: Seq<PreView>, t: SourceTrivia) -> Seq<PreView> {
    match t {
        SourceTrivia::Whitespace => if v.len() > 0 && view_is_blank(v.last()) {
            v
        } else {
            v.push(PreView::OptionalBlankLine)
        },
        SourceTrivia::Comment(c) => v.push(PreView::PrecedingComment(spec_trim_end(c@))),
    }
}

/// The tokens after each piece of preceding trivia in turn.
pub open spec fn push_trivias_view(v: Seq<PreView>, ts: Seq<SourceTrivia>) -> Seq<PreView>
    decreases ts.len(),
{
    if ts.len() == 0 {
        v
    } else {
        push_trivia_view(push_trivias_view(v, ts.drop_last()), ts.last())
    }
}

/// The tokens after [`TokenStream::push_literal_in_place_of_token`]: the
/// token's preceding trivia, `text` as a literal of the token's kind, then
/// the token's inline comment without trailing whitespace.
pub open spec fn push_token_text_view(v: Seq<PreView>, token: SourceToken, text: Seq<char>) -> Seq<
    PreView,
> {
    let w = push_trivias_view(v, token.preceding@).push(PreView::Literal(text, token.kind));
    match token.inline_comment {
        Some(c) => w.push(PreView::InlineComment(spec_trim_end(c@))),
        None => w,
    }
}

/// The tokens after [`TokenStream::push_ast_token`]: the token's preceding
/// trivia, its text as a literal of its kind, then its inline comment
/// without trailing whitespace.
pub open spec fn push_token_view(v: Seq<PreView>, token: SourceToken) -> Seq<PreView> {
    push_token_text_view(v, token, token.text@)
}

/// Viewing a stream with one more token views that token last.
pub proof fn lemma_views_push(s: Seq<PreToken>, t: PreToken)
    ensures
        views(s.push(t)) == views(s).push(t@),
{
    assert(views(s.push(t)) =~= views(s).push(t@));
}

impl TokenStream<PreToken> {
    /// Inserts a blank line, replacing any blank lines (required or
    /// optional) at the end of the stream.
    pub fn blank_line(&mut self)
        ensures
            final(self)@ == spec_blank_line(old(self)@),
            views(final(self)@) == blank_line_view(views(old(self)@)),
    {
        loop
            invariant
                trim_suffix(self@, |t: PreToken| is_blank(t)) == trim_suffix(
                    old(self)@,
                    |t: PreToken| is_blank(t),
                ),
            ensures
                self@ == trim_suffix(old(self)@, |t: PreToken| is_blank(t)),
            decreases self@.len(),
        {
            let blank = match self.0.last() {
                Some(PreToken::BlankLine) => true,
                Some(PreToken::Trivia(Trivia::BlankLine)) => true,
                _ => false,
            };
            if !blank {
                break;
            }
            let ghost before = self@;
            let _ = self.0.pop();
            assert(self@ =~= before.drop_last());
        }
        let ghost trimmed = self@;
        self.0.push(PreToken::BlankLine);
        proof {
            lemma_trim_suffix_map(
                old(self)@,
                |t: PreToken| t@,
                |t: PreToken| is_blank(t),
                |t: PreView| view_is_blank(t),
            );
            lemma_views_push(trimmed, PreToken::BlankLine);
        }
    }

    /// Inserts an end of line, replacing any word or line ends at the end of
    /// the stream.
    pub fn end_line(&mut self)
        ensures
            final(self)@ == spec_end_line(old(self)@),
            views(final(self)@) == end_line_view(views(old(self)@)),
    {
        loop
            invariant
                trim_suffix(self@, |t: PreToken| is_word_or_line_end(t)) == trim_suffix(
                    old(self)@,
                    |t: PreToken| is_word_or_line_end(t),
                ),
            ensures
                self@ == trim_suffix(old(self)@, |t: PreToken| is_word_or_line_end(t)),
            decreases self@.len(),
        {
            let end = match self.0.last() {
                Some(PreToken::WordEnd) => true,
                Some(PreToken::LineEnd) => true,
                _ => false,
            };
            if !end {
                break;
            }
            let ghost before = self@;
            let _ = self.0.pop();
            assert(self@ =~= before.drop_last());
        }
        let ghost trimmed = self@;
        self.0.push(PreToken::LineEnd);
        proof {
            lemma_trim_suffix_map(
                old(self)@,
                |t: PreToken| t@,
                |t: PreToken| is_word_or_line_end(t),
                |t: PreView| view_ends_word_or_line(t),
            );
            lemma_views_push(trimmed, PreToken::LineEnd);
        }
    }

    /// Inserts a word end, replacing any word ends at the end of the stream.
    pub fn end_word(&mut self)
        ensures
            final(self)@ == spec_end_word(old(self)@),
            views(final(self)@) == end_word_view(views(old(self)@)),
    {
        self.trim_end(&PreToken::WordEnd);
        let ghost trimmed = self@;
        self.0.push(PreToken::WordEnd);
        proof {
            lemma_trim_same_suffix(old(self)@, PreToken::WordEnd);
            lemma_trim_suffix_map(
                old(self)@,
                |t: PreToken| t@,
                |t: PreToken| t.same_as(&PreToken::WordEnd),
                |t: PreView| t == PreView::WordEnd,
            );
            lemma_views_push(trimmed, PreToken::WordEnd);
        }
    }

    /// Inserts an indent start token.
    pub fn increment_indent(&mut self)
        ensures
            final(self)@ == old(self)@.push(PreToken::IndentStart),
            views(final(self)@) == views(old(self)@).push(PreView::IndentStart),
    {
        self.0.push(PreToken::IndentStart);
        proof {
            lemma_views_push(old(self)@, PreToken::IndentStart);
        }
    }

    /// Inserts an indent end token.
    pub fn decrement_indent(&mut self)
        ensures
            final(self)@ == old(self)@.push(PreToken::IndentEnd),
            views(final(self)@) == views(old(self)@).push(PreView::IndentEnd),
    {
        self.0.push(PreToken::IndentEnd);
        proof {
            lemma_views_push(old(self)@, PreToken::IndentEnd);
        }
    }

    /// Inserts a change of context: blank lines allowed.
    pub fn blank_lines_allowed(&mut self)
        ensures
            final(self)@ == old(self)@.push(PreToken::BlankLinesContext(BlankLinesAllowed::Yes)),
    {
        self.0.push(PreToken::BlankLinesContext(BlankLinesAllowed::Yes));
    }

    /// Inserts a change of context: blank lines disallowed.
    pub fn blank_lines_disallowed(&mut self)
        ensures
            final(self)@ == old(self)@.push(PreToken::BlankLinesContext(BlankLinesAllowed::No)),
    {
        self.0.push(PreToken::BlankLinesContext(BlankLinesAllowed::No));
    }

    /// Inserts a change of context: blank lines allowed between comments.
    pub fn blank_lines_allowed_between_comments(&mut self)
        ensures
            final(self)@ == old(self)@.push(
                PreToken::BlankLinesContext(BlankLinesAllowed::BetweenComments),
            ),
    {
        self.0.push(PreToken::BlankLinesContext(BlankLinesAllowed::BetweenComments));
    }

    /// Pushes a source token with its trivia: each preceding whitespace
    /// becomes an optional blank line (unless the stream already ends with a
    /// blank line), each preceding comment becomes a preceding comment, then
    /// the token's text follows as a literal, then its inline comment.
    /// Comment texts lose their trailing whitespace.
    pub fn push_ast_token(&mut self, token: &SourceToken)
        requires
            !token.kind.spec_is_trivia(),
        ensures
            views(final(self)@) == push_token_view(views(old(self)@), *token),
    {
        self.push_literal_in_place_of_token(token, token.text.clone());
    }

    /// Pushes a source token with its trivia, as
    /// [`TokenStream::push_ast_token`] does, but with `replacement` as the
    /// literal's text in place of the token's own.
    pub fn push_literal_in_place_of_token(&mut self, token: &SourceToken, replacement: String)
        requires
            !token.kind.spec_is_trivia(),
        ensures
            views(final(self)@) == push_token_text_view(views(old(self)@), *token, replacement@),
    {
        let mut i: usize = 0;
        let ghost start = views(self@);
        while i < token.preceding.len()
            invariant
                i <= token.preceding@.len(),
                views(self@) == push_trivias_view(start, token.preceding@.take(i as int)),
            decreases token.preceding@.len() - i,
        {
            let ghost before = self@;
            match &token.preceding[i] {
                SourceTrivia::Whitespace => {
                    let ends_blank = match self.0.last() {
                        Some(PreToken::BlankLine) => true,
                        Some(PreToken::Trivia(Trivia::BlankLine)) => true,
                        _ => false,
                    };
                    if !ends_blank {
                        self.0.push(PreToken::Trivia(Trivia::BlankLine));
                        proof {
                            lemma_views_push(before, PreToken::Trivia(Trivia::BlankLine));
                        }
                    } else {
                        assert(views(before).last() == before.last()@);
                    }
                    proof {
                        if before.len() > 0 {
                            assert(views(before).last() == before.last()@);
                        }
                    }
                },
                SourceTrivia::Comment(text) => {
                    let trimmed = trim_end(text.as_str());
                    let ghost tok = PreToken::Trivia(Trivia::Comment(Comment::Preceding(trimmed)));
                    self.0.push(PreToken::Trivia(Trivia::Comment(Comment::Preceding(trimmed))));
                    proof {
                        lemma_views_push(before, tok);
                    }
                },
            }
            proof {
                let t = token.preceding@.take(i + 1);
                assert(t.drop_last() =~= token.preceding@.take(i as int));
            }
            i = i + 1;
        }
        assert(token.preceding@.take(i as int) =~= token.preceding@);
        let ghost mid = self@;
        let ghost literal = PreToken::Literal(replacement, token.kind);
        self.0.push(PreToken::Literal(replacement, token.kind));
        proof {
            lemma_views_push(mid, literal);
        }
        match &token.inline_comment {
            Some(c) => {
                let ghost mid2 = self@;
                let trimmed = trim_end(c.as_str());
                let ghost tok = PreToken::Trivia(Trivia::Comment(Comment::Inline(trimmed)));
                self.0.push(PreToken::Trivia(Trivia::Comment(Comment::Inline(trimmed))));
                proof {
                    lemma_views_push(mid2, tok);
                }
            },
            None => {},
        }
    }

    /// Gets the tokens in the stream.
    pub fn iter(&self) -> (s: &[PreToken])
        ensures
            s@ == self@,
    {
        self.0.as_slice()
    }
}

/// Inserting a blank line twice has the effect of inserting it once.
pub proof fn lemma_blank_line_idempotent(s: Seq<PreToken>)
    ensures
        spec_blank_line(spec_blank_line(s)) == spec_blank_line(s),
{
    let p = |t: PreToken| is_blank(t);
    let t = spec_blank_line(s);
    crate::format::token::lemma_trim_suffix_stable(s, p);
    let base = trim_suffix(s, p);
    assert(t.drop_last() =~= base);
    assert(trim_suffix(t, p) == trim_suffix(base, p));
}

/// Ending a line twice has the effect of ending it once.
pub proof fn lemma_end_line_idempotent(s: Seq<PreToken>)
    ensures
        spec_end_line(spec_end_line(s)) == spec_end_line(s),
{
    let p = |t: PreToken| is_word_or_line_end(t);
    let t = spec_end_line(s);
    crate::format::token::lemma_trim_suffix_stable(s, p);
    let base = trim_suffix(s, p);
    assert(t.drop_last() =~= base);
    assert(trim_suffix(t, p) == trim_suffix(base, p));
}

/// What remains after trimming does not end in the trimmed token.
proof fn lemma_trim_same_stable(s: Seq<PreToken>, tok: PreToken)
    ensures
        trim_same(trim_same(s, tok), tok) == trim_same(s, tok),
    decreases s.len(),
{
    if s.len() > 0 && s.last().same_as(&tok) {
        lemma_trim_same_stable(s.drop_last(), tok);
    }
}

/// Ending a word twice has the effect of ending it once.
pub proof fn lemma_end_word_idempotent(s: Seq<PreToken>)
    ensures
        spec_end_word(spec_end_word(s)) == spec_end_word(s),
{
    let t = spec_end_word(s);
    let base = trim_same(s, PreToken::WordEnd);
    lemma_trim_same_stable(s, PreToken::WordEnd);
    assert(t.drop_last() =~= base);
    assert(t.last().same_as(&PreToken::WordEnd));
    assert(trim_same(t, PreToken::WordEnd) == trim_same(base, PreToken::WordEnd));
}

/// A stream ending a line never keeps a word end just before the line end.
pub proof fn lemma_end_line_drops_word_end(s: Seq<PreToken>)
    ensures
        spec_end_line(s).last() == PreToken::LineEnd,
        spec_end_line(s).len() < 2 || !is_word_or_line_end(
            spec_end_line(s)[spec_end_line(s).len() - 2],
        ),
{
    let p = |t: PreToken| is_word_or_line_end(t);
    crate::format::token::lemma_trim_suffix_stable(s, p);
}

impl TokenStream<PreToken> {
    /// Pushes a literal of the given kind.
    pub fn push_literal(&mut self, value: String, kind: SyntaxKind)
        ensures
            final(self)@ == old(self)@.push(PreToken::Literal(value, kind)),
            views(final(self)@) == views(old(self)@).push(PreView::Literal(value@, kind)),
    {
        let ghost before = self@;
        let ghost literal = PreToken::Literal(value, kind);
        self.0.push(PreToken::Literal(value, kind));
        proof {
            lemma_views_push(before, literal);
        }
    }
}

} // verus!
