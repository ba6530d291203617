//! Postprocessed tokens and the postprocessor that produces them.
use vstd::prelude::*;

use super::config::{Config, Indent};
use super::pre::{views, BlankLinesAllowed, Comment, PreToken, Trivia};
use super::syntax::SyntaxKind;
use super::token::{lemma_trim_same_suffix, trim_same, trim_suffix, Token, TokenStream};
use vstd::utf8::encode_utf8;

verus! {

/// A postprocessed token.
#[derive(Debug)]
pub enum PostToken {
    /// A space.
    Space,
    /// A newline.
    Newline,
    /// One indentation.
    Indent,
    /// A string literal.
    Literal(String),
}

impl Clone for PostToken {
    fn clone(&self) -> (c: Self)
        ensures
            c == *self,
    {
        match self {
            PostToken::Space => PostToken::Space,
            PostToken::Newline => PostToken::Newline,
            PostToken::Indent => PostToken::Indent,
            PostToken::Literal(s) => PostToken::Literal(s.clone()),
        }
    }
}

impl Token for PostToken {
    open spec fn same_as(&self, other: &Self) -> bool {
        match (*self, *other) {
            (PostToken::Space, PostToken::Space) => true,
            (PostToken::Newline, PostToken::Newline) => true,
            (PostToken::Indent, PostToken::Indent) => true,
            (PostToken::Literal(a), PostToken::Literal(b)) => a@ == b@,
            _ => false,
        }
    }

    fn same(&self, other: &Self) -> (b: bool) {
        match (self, other) {
            (PostToken::Space, PostToken::Space) => true,
            (PostToken::Newline, PostToken::Newline) => true,
            (PostToken::Indent, PostToken::Indent) => true,
            (PostToken::Literal(a), PostToken::Literal(b)) => *a == *b,
            _ => false,
        }
    }
}

/// Whether the token is whitespace (a space, a newline, or an indentation).
pub open spec fn is_post_whitespace(t: PostToken) -> bool {
    t matches PostToken::Space || t matches PostToken::Newline || t matches PostToken::Indent
}

/// Whether the token is a space or an indentation.
pub open spec fn is_space_or_indent(t: PostToken) -> bool {
    t matches PostToken::Space || t matches PostToken::Indent
}

/// `s` without its trailing whitespace.
pub open spec fn spec_trim_whitespace(s: Seq<PostToken>) -> Seq<PostToken> {
    trim_suffix(s, |t: PostToken| is_post_whitespace(t))
}

/// `s` without its trailing spaces and indentations (newlines stay).
pub open spec fn spec_trim_last_line(s: Seq<PostToken>) -> Seq<PostToken> {
    trim_suffix(s, |t: PostToken| is_space_or_indent(t))
}

/// `n` indentation tokens.
pub open spec fn indents(n: nat) -> Seq<PostToken> {
    Seq::new(n, |i: int| PostToken::Indent)
}

/// Whether a literal of this kind opens a bracketed region (a line may be
/// broken after it).
pub open spec fn opens_region(kind: SyntaxKind) -> bool {
    kind == SyntaxKind::OpenBrace || kind == SyntaxKind::OpenBracket || kind
        == SyntaxKind::OpenParen || kind == SyntaxKind::OpenHeredoc
}

/// Whether a literal of this kind closes a bracketed region (a line may be
/// broken before it).
pub open spec fn closes_region(kind: SyntaxKind) -> bool {
    kind == SyntaxKind::CloseBrace || kind == SyntaxKind::CloseBracket || kind
        == SyntaxKind::CloseParen || kind == SyntaxKind::CloseHeredoc
}

/// The optional token after the current one, dereferenced.
pub open spec fn deref_next(next: Option<&PreToken>) -> Option<PreToken> {
    match next {
        Some(t) => Some(*t),
        None => None,
    }
}

/// The current position in a line.
#[derive(Clone, Copy, Debug, PartialEq, Eq, Structural)]
pub enum LinePosition {
    /// The start of a line.
    StartOfLine,
    /// The middle of a line.
    MiddleOfLine,
}

/// A postprocessor of [`PreToken`]s.
#[derive(Clone, Copy, Debug)]
pub struct Postprocessor {
    /// The current position in the line.
    position: LinePosition,
    /// The current indentation level.
    indent_level: usize,
    /// Whether the current line has been interrupted by trivia.
    interrupted: bool,
    /// Whether blank lines are allowed in the current context.
    blank_lines_allowed: BlankLinesAllowed,
}

impl Postprocessor {
    /// The initial state: at the start of a line, at level zero, not
    /// interrupted, with blank lines allowed.
    pub closed spec fn spec_initial() -> Self {
        Postprocessor {
            position: LinePosition::StartOfLine,
            indent_level: 0,
            interrupted: false,
            blank_lines_allowed: BlankLinesAllowed::Yes,
        }
    }
}

impl Default for Postprocessor {
    fn default() -> (p: Self)
        ensures
            p == Postprocessor::spec_initial(),
            p.spec_position() == LinePosition::StartOfLine,
            p.spec_indent_level() == 0,
            !p.spec_interrupted(),
            p.spec_blank_lines_allowed() == BlankLinesAllowed::Yes,
    {
        Postprocessor {
            position: LinePosition::StartOfLine,
            indent_level: 0,
            interrupted: false,
            blank_lines_allowed: BlankLinesAllowed::Yes,
        }
    }
}

impl Postprocessor {
    /// The current position in the line.
    pub closed spec fn spec_position(self) -> LinePosition {
        self.position
    }

    /// The current indentation level.
    pub closed spec fn spec_indent_level(self) -> usize {
        self.indent_level
    }

    /// Whether the current line was interrupted by trivia.
    pub closed spec fn spec_interrupted(self) -> bool {
        self.interrupted
    }

    /// The current blank line policy.
    pub closed spec fn spec_blank_lines_allowed(self) -> BlankLinesAllowed {
        self.blank_lines_allowed
    }

    /// The number of indentations written at the start of a line: one more
    /// than the level on an interrupted line.
    pub open spec fn indent_width(self) -> nat {
        (self.spec_indent_level() + if self.spec_interrupted() { 1nat } else { 0nat }) as nat
    }

    /// The state with the position set to the start of a line.
    pub closed spec fn at_start(self) -> Self {
        Postprocessor { position: LinePosition::StartOfLine, ..self }
    }

    /// The state with the position set to the middle of a line.
    pub closed spec fn at_middle(self) -> Self {
        Postprocessor { position: LinePosition::MiddleOfLine, ..self }
    }

    /// The state with the interruption flag set to `b`.
    pub closed spec fn with_interrupted(self, b: bool) -> Self {
        Postprocessor { interrupted: b, ..self }
    }

    /// The state with the indentation level set to `n`.
    pub closed spec fn with_level(self, n: usize) -> Self {
        Postprocessor { indent_level: n, ..self }
    }

    /// The state with the blank line policy set to `p`.
    pub closed spec fn with_policy(self, p: BlankLinesAllowed) -> Self {
        Postprocessor { blank_lines_allowed: p, ..self }
    }

    /// What each state update changes: the named part is set, and every
    /// other part is kept.
    pub proof fn lemma_updates(self, b: bool, n: usize, q: BlankLinesAllowed)
        ensures
            self.at_start().spec_position() == LinePosition::StartOfLine,
            self.at_start().spec_indent_level() == self.spec_indent_level(),
            self.at_start().spec_interrupted() == self.spec_interrupted(),
            self.at_start().spec_blank_lines_allowed() == self.spec_blank_lines_allowed(),
            self.at_middle().spec_position() == LinePosition::MiddleOfLine,
            self.at_middle().spec_indent_level() == self.spec_indent_level(),
            self.at_middle().spec_interrupted() == self.spec_interrupted(),
            self.at_middle().spec_blank_lines_allowed() == self.spec_blank_lines_allowed(),
            self.with_interrupted(b).spec_interrupted() == b,
            self.with_interrupted(b).spec_position() == self.spec_position(),
            self.with_interrupted(b).spec_indent_level() == self.spec_indent_level(),
            self.with_interrupted(b).spec_blank_lines_allowed() == self.spec_blank_lines_allowed(),
            self.with_level(n).spec_indent_level() == n,
            self.with_level(n).spec_position() == self.spec_position(),
            self.with_level(n).spec_interrupted() == self.spec_interrupted(),
            self.with_level(n).spec_blank_lines_allowed() == self.spec_blank_lines_allowed(),
            self.with_policy(q).spec_blank_lines_allowed() == q,
            self.with_policy(q).spec_position() == self.spec_position(),
            self.with_policy(q).spec_indent_level() == self.spec_indent_level(),
            self.with_policy(q).spec_interrupted() == self.spec_interrupted(),
    {
    }

    /// Ending a line or adding a blank line leaves the postprocessor at the
    /// start of a line with its level, interruption and blank line policy
    /// kept, and indents the new line `indent_width` times.
    pub proof fn lemma_line_breaks(self, s: Seq<PostToken>)
        ensures
            self.spec_end_line(s).0.spec_position() == LinePosition::StartOfLine,
            self.spec_end_line(s).0.spec_indent_level() == self.spec_indent_level(),
            self.spec_end_line(s).0.spec_interrupted() == self.spec_interrupted(),
            self.spec_end_line(s).0.spec_blank_lines_allowed() == self.spec_blank_lines_allowed(),
            self.spec_end_line(s).1 == (if self.spec_position() != LinePosition::StartOfLine {
                spec_trim_last_line(s).push(PostToken::Newline)
            } else {
                spec_trim_last_line(s)
            }) + indents(self.indent_width()),
            self.spec_blank_line(s).0 == self.spec_end_line(s).0,
            self.spec_blank_line(s).1 == (if spec_trim_whitespace(s).len() > 0 {
                spec_trim_whitespace(s).push(PostToken::Newline)
            } else {
                spec_trim_whitespace(s)
            }).push(PostToken::Newline) + indents(self.indent_width()),
    {
    }

    /// The effect of [`Postprocessor::end_line`]: trailing spaces and
    /// indentations go, a newline is added unless already at the start of a
    /// line, and the new line is indented.
    pub open spec fn spec_end_line(self, s: Seq<PostToken>) -> (Self, Seq<PostToken>) {
        let t = spec_trim_last_line(s);
        let t2 = if self.spec_position() != LinePosition::StartOfLine {
            t.push(PostToken::Newline)
        } else {
            t
        };
        let p = self.at_start();
        (p, t2 + indents(p.indent_width()))
    }

    /// The effect of [`Postprocessor::blank_line`]: trailing whitespace goes,
    /// a blank line is added (a single newline at the very start of the
    /// output), and the new line is indented.
    pub open spec fn spec_blank_line(self, s: Seq<PostToken>) -> (Self, Seq<PostToken>) {
        let t = spec_trim_whitespace(s);
        let t2 = if t.len() > 0 {
            t.push(PostToken::Newline)
        } else {
            t
        };
        let p = self.at_start();
        (p, t2.push(PostToken::Newline) + indents(p.indent_width()))
    }

    /// The effect of [`Postprocessor::step`].
    pub open spec fn spec_step(self, token: PreToken, next: Option<PreToken>, s: Seq<PostToken>) -> (
        Self,
        Seq<PostToken>,
    ) {
        match token {
            PreToken::BlankLine => self.spec_blank_line(s),
            PreToken::LineEnd => self.with_interrupted(false).spec_end_line(s),
            PreToken::WordEnd => {
                let t = trim_same(s, PostToken::Space);
                if self.spec_position() == LinePosition::MiddleOfLine {
                    (self, t.push(PostToken::Space))
                } else {
                    (self, t)
                }
            },
            PreToken::IndentStart => self.with_level(
                (self.spec_indent_level() + 1) as usize,
            ).spec_end_line(s),
            PreToken::IndentEnd => self.with_level(
                if self.spec_indent_level() == 0 {
                    0
                } else {
                    (self.spec_indent_level() - 1) as usize
                },
            ).spec_end_line(s),
            PreToken::BlankLinesContext(p) => (self.with_policy(p), s),
            PreToken::Literal(value, kind) => {
                let t = if self.spec_interrupted() && opens_region(kind) && s.len() > 0
                    && s.last() == PostToken::Indent {
                    s.drop_last()
                } else {
                    s
                };
                (self.at_middle(), t.push(PostToken::Literal(value)))
            },
            PreToken::Trivia(Trivia::BlankLine) => match self.spec_blank_lines_allowed() {
                BlankLinesAllowed::Yes => self.spec_blank_line(s),
                BlankLinesAllowed::No => (self, s),
                BlankLinesAllowed::BetweenComments => if next matches Some(
                    PreToken::Trivia(Trivia::Comment(_)),
                ) {
                    self.spec_blank_line(s)
                } else {
                    (self, s)
                },
            },
            PreToken::Trivia(Trivia::Comment(Comment::Preceding(value))) => {
                let line_start = s.len() == 0 || s.last() matches PostToken::Newline
                    || s.last() matches PostToken::Indent;
                let p = if !line_start {
                    self.with_interrupted(true)
                } else {
                    self
                };
                let (p2, t) = p.spec_end_line(s);
                p2.at_middle().spec_end_line(t.push(PostToken::Literal(value)))
            },
            PreToken::Trivia(Trivia::Comment(Comment::Inline(value))) => {
                let p = if next is Some && !(next matches Some(PreToken::LineEnd)) {
                    self.with_interrupted(true)
                } else {
                    self
                };
                let t = spec_trim_last_line(s).push(PostToken::Space).push(PostToken::Space).push(
                    PostToken::Literal(value),
                );
                p.spec_end_line(t)
            },
        }
    }

    /// The tokens on which [`Postprocessor::step`] is defined: a literal is
    /// never trivia, and the indentation level leaves room to grow.
    pub open spec fn step_ok(self, token: PreToken) -> bool {
        &&& self.spec_indent_level() + 2 <= usize::MAX
        &&& token matches PreToken::Literal(_, k) ==> !k.spec_is_trivia()
    }

    /// Trims any and all whitespace from the end of the stream.
    pub fn trim_whitespace(&self, stream: &mut TokenStream<PostToken>)
        ensures
            final(stream)@ == spec_trim_whitespace(old(stream)@),
    {
        loop
            invariant
                spec_trim_whitespace(stream@) == spec_trim_whitespace(old(stream)@),
            ensures
                stream@ == spec_trim_whitespace(old(stream)@),
            decreases stream@.len(),
        {
            let ws = match stream.0.last() {
                Some(PostToken::Space) => true,
                Some(PostToken::Newline) => true,
                Some(PostToken::Indent) => true,
                _ => false,
            };
            if !ws {
                break;
            }
            let ghost before = stream@;
            let _ = stream.0.pop();
            assert(stream@ =~= before.drop_last());
        }
    }

    /// Trims spaces and indents (and not newlines) from the end of the
    /// stream.
    pub fn trim_last_line(&self, stream: &mut TokenStream<PostToken>)
        ensures
            final(stream)@ == spec_trim_last_line(old(stream)@),
    {
        loop
            invariant
                spec_trim_last_line(stream@) == spec_trim_last_line(old(stream)@),
            ensures
                stream@ == spec_trim_last_line(old(stream)@),
            decreases stream@.len(),
        {
            let ws = match stream.0.last() {
                Some(PostToken::Space) => true,
                Some(PostToken::Indent) => true,
                _ => false,
            };
            if !ws {
                break;
            }
            let ghost before = stream@;
            let _ = stream.0.pop();
            assert(stream@ =~= before.drop_last());
        }
    }

    /// Pushes the current indentation to the stream; only called at the
    /// start of a line.
    pub fn indent(&self, stream: &mut TokenStream<PostToken>)
        requires
            self.spec_position() == LinePosition::StartOfLine,
            self.spec_indent_level() < usize::MAX,
        ensures
            final(stream)@ == old(stream)@ + indents(self.indent_width()),
    {
        let level = if self.interrupted {
            self.indent_level + 1
        } else {
            self.indent_level
        };
        let mut i: usize = 0;
        while i < level
            invariant
                i <= level,
                level == self.indent_width(),
                stream@ == old(stream)@ + indents(i as nat),
            decreases level - i,
        {
            stream.0.push(PostToken::Indent);
            i = i + 1;
            assert(stream@ =~= old(stream)@ + indents(i as nat));
        }
    }

    /// Ends the current line without resetting the interruption: trailing
    /// spaces and indentations go, a newline is added unless already at the
    /// start of a line, and the new line is indented. Calling it again right
    /// away changes nothing.
    pub fn end_line(&mut self, stream: &mut TokenStream<PostToken>)
        requires
            old(self).spec_indent_level() < usize::MAX,
        ensures
            (*final(self), final(stream)@) == old(self).spec_end_line(old(stream)@),
    {
        self.trim_last_line(stream);
        if self.position != LinePosition::StartOfLine {
            stream.0.push(PostToken::Newline);
        }
        self.position = LinePosition::StartOfLine;
        self.indent(stream);
    }

    /// Creates a blank line and then indents.
    pub fn blank_line(&mut self, stream: &mut TokenStream<PostToken>)
        requires
            old(self).spec_indent_level() < usize::MAX,
        ensures
            (*final(self), final(stream)@) == old(self).spec_blank_line(old(stream)@),
    {
        self.trim_whitespace(stream);
        if stream.0.len() > 0 {
            stream.0.push(PostToken::Newline);
        }
        stream.0.push(PostToken::Newline);
        self.position = LinePosition::StartOfLine;
        self.indent(stream);
    }

    /// Takes one step over a [`PreToken`], given the token after it, and
    /// pushes the resulting [`PostToken`]s.
    pub fn step(
        &mut self,
        token: PreToken,
        next: Option<&PreToken>,
        stream: &mut TokenStream<PostToken>,
    )
        requires
            old(self).step_ok(token),
        ensures
            (*final(self), final(stream)@) == old(self).spec_step(
                token,
                deref_next(next),
                old(stream)@,
            ),
    {
        match token {
            PreToken::BlankLine => {
                self.blank_line(stream);
            },
            PreToken::LineEnd => {
                self.interrupted = false;
                self.end_line(stream);
            },
            PreToken::WordEnd => {
                stream.trim_end(&PostToken::Space);
                if self.position == LinePosition::MiddleOfLine {
                    stream.push(PostToken::Space);
                }
            },
            PreToken::IndentStart => {
                self.indent_level = self.indent_level + 1;
                self.end_line(stream);
            },
            PreToken::IndentEnd => {
                self.indent_level = self.indent_level.saturating_sub(1);
                self.end_line(stream);
            },
            PreToken::BlankLinesContext(policy) => {
                self.blank_lines_allowed = policy;
            },
            PreToken::Literal(value, kind) => {
                let opens = match kind {
                    SyntaxKind::OpenBrace | SyntaxKind::OpenBracket | SyntaxKind::OpenParen
                    | SyntaxKind::OpenHeredoc => true,
                    _ => false,
                };
                let ends_indent = match stream.0.last() {
                    Some(PostToken::Indent) => true,
                    _ => false,
                };
                if self.interrupted && opens && ends_indent {
                    let _ = stream.0.pop();
                }
                stream.push(PostToken::Literal(value));
                self.position = LinePosition::MiddleOfLine;
            },
            PreToken::Trivia(trivia) => match trivia {
                Trivia::BlankLine => match self.blank_lines_allowed {
                    BlankLinesAllowed::Yes => {
                        self.blank_line(stream);
                    },
                    BlankLinesAllowed::No => {},
                    BlankLinesAllowed::BetweenComments => {
                        let comment_next = match next {
                            Some(PreToken::Trivia(Trivia::Comment(_))) => true,
                            _ => false,
                        };
                        if comment_next {
                            self.blank_line(stream);
                        }
                    },
                },
                Trivia::Comment(comment) => {
                    match comment {
                        Comment::Preceding(value) => {
                            let line_start = match stream.0.last() {
                                Some(PostToken::Newline) | Some(PostToken::Indent) | None => true,
                                _ => false,
                            };
                            if !line_start {
                                self.interrupted = true;
                            }
                            self.end_line(stream);
                            stream.push(PostToken::Literal(value));
                            self.position = LinePosition::MiddleOfLine;
                        },
                        Comment::Inline(value) => {
                            let interrupts = match next {
                                Some(PreToken::LineEnd) => false,
                                Some(_) => true,
                                None => false,
                            };
                            if interrupts {
                                self.interrupted = true;
                            }
                            self.trim_last_line(stream);
                            stream.push(PostToken::Space);
                            stream.push(PostToken::Space);
                            stream.push(PostToken::Literal(value));
                        },
                    }
                    self.end_line(stream);
                },
            },
        }
    }
}


/// The number of characters a token occupies on a line (bytes of a literal).
pub open spec fn token_len(t: PostToken, config: Config) -> nat {
    match t {
        PostToken::Space => 1,
        PostToken::Newline => 0,
        PostToken::Indent => config.spec_indent().spec_num() as nat,
        PostToken::Literal(v) => encode_utf8(v@).len() as usize as nat,
    }
}

/// The number of characters the tokens occupy.
pub open spec fn stream_len(s: Seq<PostToken>, config: Config) -> nat
    decreases s.len(),
{
    if s.len() == 0 {
        0
    } else {
        stream_len(s.drop_last(), config) + token_len(s.last(), config)
    }
}

/// The index where the last line of `s` starts (just after its last
/// newline, or `0`).
pub open spec fn last_line_start(s: Seq<PostToken>) -> nat
    decreases s.len(),
{
    if s.len() == 0 {
        0
    } else if s.last() is Newline {
        s.len()
    } else {
        last_line_start(s.drop_last())
    }
}

/// The tokens of the last line of `s`.
pub open spec fn last_line(s: Seq<PostToken>) -> Seq<PostToken> {
    s.skip(last_line_start(s) as int)
}

impl PostToken {
    /// Gets the length of the token.
    pub fn len(&self, config: &Config) -> (n: usize)
        ensures
            n == token_len(*self, *config),
    {
        match self {
            PostToken::Space => 1,
            PostToken::Newline => 0,
            PostToken::Indent => config.indent().num(),
            PostToken::Literal(value) => value.as_str().len(),
        }
    }
}

/// `stream_len` of a prefix plus the next token.
proof fn lemma_stream_len_take(s: Seq<PostToken>, config: Config, i: int)
    requires
        0 <= i < s.len(),
    ensures
        stream_len(s.take(i + 1), config) == stream_len(s.take(i), config) + token_len(
            s[i],
            config,
        ),
{
    assert(s.take(i + 1).drop_last() =~= s.take(i));
}

/// Whether the tokens occupy at most `max` characters.
pub fn fits_within(tokens: &[PostToken], config: &Config, max: usize) -> (b: bool)
    ensures
        b == (stream_len(tokens@, *config) <= max),
{
    let mut total: usize = 0;
    let mut i: usize = 0;
    while i < tokens.len()
        invariant
            i <= tokens@.len(),
            total == stream_len(tokens@.take(i as int), *config),
            total <= max,
        decreases tokens@.len() - i,
    {
        let n = tokens[i].len(config);
        proof {
            lemma_stream_len_take(tokens@, *config, i as int);
        }
        if n > max - total {
            proof {
                lemma_stream_len_mono(tokens@, *config, i + 1);
            }
            return false;
        }
        total = total + n;
        i = i + 1;
    }
    assert(tokens@.take(i as int) =~= tokens@);
    true
}

/// A prefix never occupies more than the whole.
proof fn lemma_stream_len_mono(s: Seq<PostToken>, config: Config, i: int)
    requires
        0 <= i <= s.len(),
    ensures
        stream_len(s.take(i), config) <= stream_len(s, config),
    decreases s.len() - i,
{
    if i < s.len() {
        lemma_stream_len_mono(s, config, i + 1);
        lemma_stream_len_take(s, config, i);
    } else {
        assert(s.take(i) =~= s);
    }
}

/// The index where the last line of the tokens starts.
pub fn find_last_line_start(tokens: &[PostToken]) -> (k: usize)
    ensures
        k == last_line_start(tokens@),
{
    let mut k = tokens.len();
    assert(tokens@.take(k as int) =~= tokens@);
    while k > 0
        invariant
            k <= tokens@.len(),
            last_line_start(tokens@) == last_line_start(tokens@.take(k as int)),
        decreases k,
    {
        assert(tokens@.take(k as int).last() == tokens@[k - 1]);
        match tokens[k - 1] {
            PostToken::Newline => {
                return k;
            },
            _ => {},
        }
        assert(tokens@.take(k as int).drop_last() =~= tokens@.take(k - 1));
        k = k - 1;
    }
    k
}

/// `stream_len` of the tokens from `k` on, through the last.
proof fn lemma_stream_len_skip(s: Seq<PostToken>, config: Config, k: int, i: int)
    requires
        0 <= k <= i < s.len(),
    ensures
        stream_len(s.subrange(k, i + 1), config) == stream_len(s.subrange(k, i), config)
            + token_len(s[i], config),
{
    assert(s.subrange(k, i + 1).drop_last() =~= s.subrange(k, i));
}

/// Whether the last line of the tokens occupies at most `max` characters.
pub fn last_line_fits(tokens: &[PostToken], config: &Config, max: usize) -> (b: bool)
    ensures
        b == (stream_len(last_line(tokens@), *config) <= max),
{
    let k = find_last_line_start(tokens);
    proof {
        assert(k <= tokens@.len()) by {
            lemma_last_line_start_bound(tokens@);
        }
    }
    let mut total: usize = 0;
    let mut i: usize = k;
    while i < tokens.len()
        invariant
            k <= i <= tokens@.len(),
            k == last_line_start(tokens@),
            total == stream_len(tokens@.subrange(k as int, i as int), *config),
            total <= max,
        decreases tokens@.len() - i,
    {
        let n = tokens[i].len(config);
        proof {
            lemma_stream_len_skip(tokens@, *config, k as int, i as int);
        }
        if n > max - total {
            proof {
                let tail = tokens@.subrange(k as int, tokens@.len() as int);
                assert(tokens@.subrange(k as int, i + 1) =~= tail.take(i + 1 - k));
                lemma_stream_len_mono(tail, *config, i + 1 - k);
                assert(tokens@.skip(k as int) =~= tail);
                assert(last_line(tokens@) == tail);
                assert(stream_len(tokens@.subrange(k as int, i + 1), *config) > max);
                assert(stream_len(tail, *config) > max);
            }
            return false;
        }
        total = total + n;
        i = i + 1;
    }
    assert(tokens@.subrange(k as int, i as int) =~= last_line(tokens@));
    true
}

/// The start of the last line lies within the tokens.
proof fn lemma_last_line_start_bound(s: Seq<PostToken>)
    ensures
        last_line_start(s) <= s.len(),
    decreases s.len(),
{
    if s.len() > 0 && !(s.last() is Newline) {
        lemma_last_line_start_bound(s.drop_last());
    }
}

impl TokenStream<PostToken> {
    /// Gets the length of the stream: the characters its tokens occupy.
    pub fn len(&self, config: &Config) -> (n: usize)
        requires
            stream_len(self@, *config) <= usize::MAX,
        ensures
            n == stream_len(self@, *config),
    {
        let mut total: usize = 0;
        let mut i: usize = 0;
        while i < self.0.len()
            invariant
                i <= self@.len(),
                total == stream_len(self@.take(i as int), *config),
                stream_len(self@, *config) <= usize::MAX,
            decreases self@.len() - i,
        {
            proof {
                lemma_stream_len_take(self@, *config, i as int);
                lemma_stream_len_mono(self@, *config, i + 1);
            }
            total = total + self.0[i].len(config);
            i = i + 1;
        }
        assert(self@.take(i as int) =~= self@);
        total
    }
}

/// On which side of a token a line may be broken.
#[derive(Clone, Copy, Debug, PartialEq, Eq, Structural)]
pub enum LineBreak {
    /// Before the token.
    Before,
    /// After the token.
    After,
}

/// On which side, if any, a line may be broken at a literal of this kind:
/// after an opening bracket, before a closing one.
pub fn can_be_line_broken(kind: SyntaxKind) -> (r: Option<LineBreak>)
    ensures
        r == (if opens_region(kind) {
            Some(LineBreak::After)
        } else if closes_region(kind) {
            Some(LineBreak::Before)
        } else {
            None
        }),
{
    match kind {
        SyntaxKind::OpenBrace | SyntaxKind::OpenBracket | SyntaxKind::OpenParen
        | SyntaxKind::OpenHeredoc => Some(LineBreak::After),
        SyntaxKind::CloseBrace | SyntaxKind::CloseBracket | SyntaxKind::CloseParen
        | SyntaxKind::CloseHeredoc => Some(LineBreak::Before),
        _ => None,
    }
}

/// Whether position `j` of `s` (between tokens `j - 1` and `j`) is a place
/// where a line may be broken: before a closing bracket or after an opening
/// one.
pub open spec fn is_break(s: Seq<PreToken>, j: int) -> bool {
    ||| (0 <= j < s.len() && (s[j] matches PreToken::Literal(_, k) && closes_region(k)))
    ||| (1 <= j <= s.len() && (s[j - 1] matches PreToken::Literal(_, k) && opens_region(k)))
}

/// The places before `j` where a line may be broken, in increasing order.
pub open spec fn breaks_upto(s: Seq<PreToken>, j: int) -> Seq<usize>
    decreases j,
{
    if j <= 0 {
        Seq::empty()
    } else if is_break(s, j - 1) {
        breaks_upto(s, j - 1).push((j - 1) as usize)
    } else {
        breaks_upto(s, j - 1)
    }
}

/// The places where a line of `s` may be broken, in increasing order and
/// without repetition.
pub open spec fn line_breaks(s: Seq<PreToken>) -> Seq<usize> {
    breaks_upto(s, s.len() + 1int)
}

/// Computes [`line_breaks`].
pub fn find_line_breaks(tokens: &[PreToken]) -> (v: Vec<usize>)
    ensures
        v@ == line_breaks(tokens@),
{
    let mut v: Vec<usize> = Vec::new();
    let n = tokens.len();
    let mut j: usize = 0;
    while j <= n
        invariant
            n == tokens@.len(),
            j <= n + 1,
            v@ == breaks_upto(tokens@, j as int),
        decreases n + 1 - j,
    {
        let before = if j < n {
            match &tokens[j] {
                PreToken::Literal(_, k) => match can_be_line_broken(*k) {
                    Some(LineBreak::Before) => true,
                    _ => false,
                },
                _ => false,
            }
        } else {
            false
        };
        let after = if j >= 1 {
            match &tokens[j - 1] {
                PreToken::Literal(_, k) => match can_be_line_broken(*k) {
                    Some(LineBreak::After) => true,
                    _ => false,
                },
                _ => false,
            }
        } else {
            false
        };
        if before || after {
            v.push(j);
        }
        if j == n {
            return v;
        }
        j = j + 1;
    }
    v
}

/// Whether `v` holds `x`.
pub fn contains_usize(v: &[usize], x: usize) -> (b: bool)
    ensures
        b == v@.contains(x),
{
    let mut i: usize = 0;
    while i < v.len()
        invariant
            i <= v@.len(),
            forall|j: int| 0 <= j < i ==> v@[j] != x,
        decreases v@.len() - i,
    {
        if v[i] == x {
            assert(v@[i as int] == x);
            return true;
        }
        i = i + 1;
    }
    false
}

impl Postprocessor {
    /// The result of one pass over `s` from token `i` on, inserting a line
    /// end before each break point while fewer than `max_breaks` have been
    /// inserted.
    pub open spec fn spec_pass(
        self,
        s: Seq<PreToken>,
        brk: Seq<usize>,
        max_breaks: nat,
        i: nat,
        inserted: nat,
        out: Seq<PostToken>,
    ) -> (Self, Seq<PostToken>)
        decreases s.len() - i,
    {
        if i >= s.len() {
            (self, out)
        } else {
            let breaks_here = inserted < max_breaks && brk.contains(i as usize);
            let (p1, o1) = if breaks_here {
                self.spec_step(PreToken::LineEnd, None, out)
            } else {
                (self, out)
            };
            let ins1 = if breaks_here {
                inserted + 1
            } else {
                inserted
            };
            let next = if i + 1 < s.len() {
                Some(s[i + 1int])
            } else {
                None
            };
            let (p2, o2) = p1.spec_step(s[i as int], next, o1);
            p2.spec_pass(s, brk, max_breaks, i + 1, ins1, o2)
        }
    }

    /// Whether every step of [`Postprocessor::spec_pass`] is defined.
    pub open spec fn pass_ok(
        self,
        s: Seq<PreToken>,
        brk: Seq<usize>,
        max_breaks: nat,
        i: nat,
        inserted: nat,
        out: Seq<PostToken>,
    ) -> bool
        decreases s.len() - i,
    {
        if i >= s.len() {
            true
        } else {
            let breaks_here = inserted < max_breaks && brk.contains(i as usize);
            let (p1, o1) = if breaks_here {
                self.spec_step(PreToken::LineEnd, None, out)
            } else {
                (self, out)
            };
            let ins1 = if breaks_here {
                inserted + 1
            } else {
                inserted
            };
            let next = if i + 1 < s.len() {
                Some(s[i + 1int])
            } else {
                None
            };
            let (p2, o2) = p1.spec_step(s[i as int], next, o1);
            &&& (breaks_here ==> self.step_ok(PreToken::LineEnd))
            &&& p1.step_ok(s[i as int])
            &&& p2.pass_ok(s, brk, max_breaks, i + 1, ins1, o2)
        }
    }

    /// Takes one pass over the tokens (see [`Postprocessor::spec_pass`]).
    fn pass(
        &mut self,
        tokens: &[PreToken],
        brk: &[usize],
        max_breaks: usize,
        out: &mut TokenStream<PostToken>,
    )
        requires
            old(self).pass_ok(tokens@, brk@, max_breaks as nat, 0, 0, old(out)@),
        ensures
            (*final(self), final(out)@) == old(self).spec_pass(
                tokens@,
                brk@,
                max_breaks as nat,
                0,
                0,
                old(out)@,
            ),
    {
        let mut i: usize = 0;
        let mut inserted: usize = 0;
        while i < tokens.len()
            invariant
                i <= tokens@.len(),
                inserted <= i,
                self.pass_ok(tokens@, brk@, max_breaks as nat, i as nat, inserted as nat, out@),
                self.spec_pass(tokens@, brk@, max_breaks as nat, i as nat, inserted as nat, out@)
                    == old(self).spec_pass(tokens@, brk@, max_breaks as nat, 0, 0, old(out)@),
            decreases tokens@.len() - i,
        {
            if inserted < max_breaks && contains_usize(brk, i) {
                inserted = inserted + 1;
                self.step(PreToken::LineEnd, None, out);
            }
            let next = if i + 1 < tokens.len() {
                Some(&tokens[i + 1])
            } else {
                None
            };
            self.step(tokens[i].clone(), next, out);
            i = i + 1;
        }
    }

    /// The result of the passes with `m`, `m + 1`, ... inserted line breaks,
    /// stopping at the first whose last line fits within `max` (or after the
    /// last break point, keeping the latest output).
    pub open spec fn spec_break_passes(
        self,
        s: Seq<PreToken>,
        brk: Seq<usize>,
        m: nat,
        max: nat,
        config: Config,
        prev: Seq<PostToken>,
    ) -> (Self, Seq<PostToken>)
        decreases brk.len() + 1 - m,
    {
        if m > brk.len() {
            (self, prev)
        } else {
            let (p, out) = self.spec_pass(s, brk, m, 0, 0, Seq::empty());
            if stream_len(last_line(out), config) <= max {
                (p, out)
            } else {
                p.spec_break_passes(s, brk, m + 1, max, config, out)
            }
        }
    }

    /// Whether every pass of [`Postprocessor::spec_break_passes`] is
    /// defined.
    pub open spec fn break_passes_ok(
        self,
        s: Seq<PreToken>,
        brk: Seq<usize>,
        m: nat,
        max: nat,
        config: Config,
    ) -> bool
        decreases brk.len() + 1 - m,
    {
        if m > brk.len() {
            true
        } else {
            let (p, out) = self.spec_pass(s, brk, m, 0, 0, Seq::empty());
            &&& self.pass_ok(s, brk, m, 0, 0, Seq::empty())
            &&& (stream_len(last_line(out), config) <= max || p.break_passes_ok(
                s,
                brk,
                m + 1,
                max,
                config,
            ))
        }
    }

    /// The effect of [`Postprocessor::flush`]: the line's tokens are
    /// processed once; if a line length limit is set and exceeded, the line
    /// is processed again with 1, 2, ... line breaks inserted at its break
    /// points until its last line fits.
    pub open spec fn spec_flush(self, s: Seq<PreToken>, out: Seq<PostToken>, config: Config) -> (
        Self,
        Seq<PostToken>,
    ) {
        let brk = line_breaks(s);
        let (p1, buf) = self.spec_pass(s, brk, 0, 0, 0, Seq::empty());
        match config.spec_max_line_length() {
            None => (p1, out + buf),
            Some(max) => if stream_len(buf, config) <= max {
                (p1, out + buf)
            } else {
                let (p2, buf2) = p1.spec_break_passes(s, brk, 1, max as nat, config, buf);
                (p2, out + buf2)
            },
        }
    }

    /// Whether every step of [`Postprocessor::spec_flush`] is defined.
    pub open spec fn flush_ok(self, s: Seq<PreToken>, config: Config) -> bool {
        let brk = line_breaks(s);
        let (p1, buf) = self.spec_pass(s, brk, 0, 0, 0, Seq::empty());
        &&& self.pass_ok(s, brk, 0, 0, 0, Seq::empty())
        &&& match config.spec_max_line_length() {
            None => true,
            Some(max) => stream_len(buf, config) <= max || p1.break_passes_ok(
                s,
                brk,
                1,
                max as nat,
                config,
            ),
        }
    }

    /// Flushes the tokens of one line to the output, breaking the line at
    /// its break points if it is too long.
    pub fn flush(
        &mut self,
        in_stream: &TokenStream<PreToken>,
        out_stream: &mut TokenStream<PostToken>,
        config: &Config,
    )
        requires
            old(self).flush_ok(in_stream@, *config),
        ensures
            (*final(self), final(out_stream)@) == old(self).spec_flush(
                in_stream@,
                old(out_stream)@,
                *config,
            ),
    {
        let tokens = in_stream.iter();
        let brk = find_line_breaks(tokens);
        let mut post_buffer: TokenStream<PostToken> = TokenStream::default();
        self.pass(tokens, brk.as_slice(), 0, &mut post_buffer);
        let max_length = match config.max_line_length() {
            None => {
                out_stream.extend(post_buffer);
                return ;
            },
            Some(m) => m,
        };
        if fits_within(post_buffer.as_slice(), config, max_length) {
            out_stream.extend(post_buffer);
            return ;
        }
        let ghost p1 = *self;
        let ghost buf1 = post_buffer@;
        let mut m: usize = 1;
        loop
            invariant_except_break
                1 <= m <= brk@.len() + 1,
                self.break_passes_ok(tokens@, brk@, m as nat, max_length as nat, *config),
                self.spec_break_passes(
                    tokens@,
                    brk@,
                    m as nat,
                    max_length as nat,
                    *config,
                    post_buffer@,
                ) == p1.spec_break_passes(tokens@, brk@, 1, max_length as nat, *config, buf1),
            ensures
                (*self, post_buffer@) == p1.spec_break_passes(
                    tokens@,
                    brk@,
                    1,
                    max_length as nat,
                    *config,
                    buf1,
                ),
            decreases brk@.len() + 1 - m,
        {
            if m > brk.len() {
                break ;
            }
            post_buffer.clear();
            self.pass(tokens, brk.as_slice(), m, &mut post_buffer);
            if last_line_fits(post_buffer.as_slice(), config, max_length) {
                break ;
            }
            if m == brk.len() {
                assert(self.spec_break_passes(
                    tokens@,
                    brk@,
                    (m + 1) as nat,
                    max_length as nat,
                    *config,
                    post_buffer@,
                ) == (*self, post_buffer@));
                break ;
            }
            m = m + 1;
        }
        out_stream.extend(post_buffer);
    }
}

impl Postprocessor {
    /// The effect of [`Postprocessor::run`] from token `i` on: tokens are
    /// collected into a line buffer; at each line end the buffer is flushed,
    /// trailing whitespace is removed from the output, a newline is added,
    /// and a new buffer starts with that line end. Tokens after the last
    /// line end are not emitted.
    pub open spec fn spec_run_from(
        self,
        s: Seq<PreToken>,
        i: nat,
        output: Seq<PostToken>,
        buffer: Seq<PreToken>,
        config: Config,
    ) -> (Self, Seq<PostToken>)
        decreases s.len() - i,
    {
        if i >= s.len() {
            (self, output)
        } else if s[i as int] is LineEnd {
            let (p1, o1) = self.spec_flush(buffer, output, config);
            let o2 = spec_trim_whitespace(o1).push(PostToken::Newline);
            p1.at_start().spec_run_from(s, i + 1, o2, seq![s[i as int]], config)
        } else {
            self.spec_run_from(s, i + 1, output, buffer.push(s[i as int]), config)
        }
    }

    /// Whether every flush of [`Postprocessor::spec_run_from`] is defined.
    pub open spec fn run_ok_from(
        self,
        s: Seq<PreToken>,
        i: nat,
        output: Seq<PostToken>,
        buffer: Seq<PreToken>,
        config: Config,
    ) -> bool
        decreases s.len() - i,
    {
        if i >= s.len() {
            true
        } else if s[i as int] is LineEnd {
            let (p1, o1) = self.spec_flush(buffer, output, config);
            let o2 = spec_trim_whitespace(o1).push(PostToken::Newline);
            &&& self.flush_ok(buffer, config)
            &&& p1.at_start().run_ok_from(s, i + 1, o2, seq![s[i as int]], config)
        } else {
            self.run_ok_from(s, i + 1, output, buffer.push(s[i as int]), config)
        }
    }

    /// The effect of [`Postprocessor::run`].
    pub open spec fn spec_run(self, s: Seq<PreToken>, config: Config) -> (Self, Seq<PostToken>) {
        self.spec_run_from(s, 0, Seq::empty(), Seq::empty(), config)
    }

    /// Whether [`Postprocessor::run`] is defined on the input.
    pub open spec fn run_ok(self, s: Seq<PreToken>, config: Config) -> bool {
        self.run_ok_from(s, 0, Seq::empty(), Seq::empty(), config)
    }

    /// Runs the postprocessor over a stream of [`PreToken`]s.
    pub fn run(&mut self, input: TokenStream<PreToken>, config: &Config) -> (out: TokenStream<
        PostToken,
    >)
        requires
            old(self).run_ok(input@, *config),
        ensures
            (*final(self), out@) == old(self).spec_run(input@, *config),
    {
        let mut output: TokenStream<PostToken> = TokenStream::default();
        let mut buffer: TokenStream<PreToken> = TokenStream::default();
        let tokens = input.into_vec();
        let mut i: usize = 0;
        while i < tokens.len()
            invariant
                i <= tokens@.len(),
                self.run_ok_from(tokens@, i as nat, output@, buffer@, *config),
                self.spec_run_from(tokens@, i as nat, output@, buffer@, *config)
                    == old(self).spec_run(input@, *config),
            decreases tokens@.len() - i,
        {
            let token = tokens[i].clone();
            match token {
                PreToken::LineEnd => {
                    self.flush(&buffer, &mut output, config);
                    self.trim_whitespace(&mut output);
                    output.push(PostToken::Newline);
                    buffer.clear();
                    buffer.push(token);
                    self.position = LinePosition::StartOfLine;
                    assert(buffer@ =~= seq![tokens@[i as int]]);
                },
                _ => {
                    buffer.push(token);
                },
            }
            i = i + 1;
        }
        output
    }
}

/// The text of a token.
pub open spec fn token_text(t: PostToken, config: Config) -> Seq<char> {
    match t {
        PostToken::Space => seq![' '],
        PostToken::Newline => seq!['\n'],
        PostToken::Indent => match config.spec_indent() {
            Indent::Spaces(n) => Seq::new(n as nat, |i: int| ' '),
            Indent::Tabs => seq!['\t'],
        },
        PostToken::Literal(v) => v@,
    }
}

/// The text of a sequence of tokens.
pub open spec fn render(s: Seq<PostToken>, config: Config) -> Seq<char>
    decreases s.len(),
{
    if s.len() == 0 {
        Seq::empty()
    } else {
        render(s.drop_last(), config) + token_text(s.last(), config)
    }
}

impl PostToken {
    /// Appends the text of the token to `out`.
    pub fn write_to(&self, config: &Config, out: &mut String)
        ensures
            final(out)@ == old(out)@ + token_text(*self, *config),
    {
        match self {
            PostToken::Space => {
                crate::text::push_char(out, ' ');
                assert(out@ =~= old(out)@ + seq![' ']);
            },
            PostToken::Newline => {
                crate::text::push_char(out, '\n');
                assert(out@ =~= old(out)@ + seq!['\n']);
            },
            PostToken::Indent => match config.indent() {
                Indent::Spaces(n) => {
                    let mut i: usize = 0;
                    while i < n
                        invariant
                            i <= n,
                            out@ == old(out)@ + Seq::new(i as nat, |j: int| ' '),
                        decreases n - i,
                    {
                        crate::text::push_char(out, ' ');
                        i = i + 1;
                        assert(out@ =~= old(out)@ + Seq::new(i as nat, |j: int| ' '));
                    }
                },
                Indent::Tabs => {
                    crate::text::push_char(out, '\t');
                    assert(out@ =~= old(out)@ + seq!['\t']);
                },
            },
            PostToken::Literal(v) => {
                out.append(v.as_str());
            },
        }
    }
}

impl TokenStream<PostToken> {
    /// The text of the stream.
    pub fn to_text(&self, config: &Config) -> (s: String)
        ensures
            s@ == render(self@, *config),
    {
        let mut out = String::new();
        let mut i: usize = 0;
        while i < self.0.len()
            invariant
                i <= self@.len(),
                out@ == render(self@.take(i as int), *config),
            decreases self@.len() - i,
        {
            self.0[i].write_to(config, &mut out);
            assert(self@.take(i + 1).drop_last() =~= self@.take(i as int));
            i = i + 1;
        }
        assert(self@.take(i as int) =~= self@);
        out
    }
}

/// Trimming after appending tokens that are all trimmed gives what trimming
/// gave before.
proof fn lemma_trim_suffix_append<T>(s: Seq<T>, extra: Seq<T>, p: spec_fn(T) -> bool)
    requires
        forall|i: int| 0 <= i < extra.len() ==> #[trigger] p(extra[i]),
    ensures
        trim_suffix(s + extra, p) == trim_suffix(s, p),
    decreases extra.len(),
{
    if extra.len() > 0 {
        let e = extra.drop_last();
        assert((s + extra).drop_last() =~= s + e);
        assert((s + extra).last() == extra.last());
        lemma_trim_suffix_append(s, e, p);
    } else {
        assert(s + extra =~= s);
    }
}

/// Ending a line twice in a row has the effect of ending it once.
pub proof fn lemma_end_line_idempotent(p: Postprocessor, s: Seq<PostToken>)
    ensures
        ({
            let (p1, s1) = p.spec_end_line(s);
            p1.spec_end_line(s1) == (p1, s1)
        }),
{
    let (p1, s1) = p.spec_end_line(s);
    let q = |t: PostToken| is_space_or_indent(t);
    let t = spec_trim_last_line(s);
    crate::format::token::lemma_trim_suffix_stable(s, q);
    let t2 = if p.spec_position() != LinePosition::StartOfLine {
        t.push(PostToken::Newline)
    } else {
        t
    };
    lemma_trim_suffix_append(t2, indents(p1.indent_width()), q);
    if p.spec_position() != LinePosition::StartOfLine {
        assert(trim_suffix(t2, q) == t2);
    }
    assert(p1.at_start() == p1);
}

/// Asking for a blank line twice in a row gives a single blank line.
pub proof fn lemma_blank_line_idempotent(p: Postprocessor, s: Seq<PostToken>)
    ensures
        ({
            let (p1, s1) = p.spec_blank_line(s);
            p1.spec_blank_line(s1) == (p1, s1)
        }),
{
    let (p1, s1) = p.spec_blank_line(s);
    let q = |t: PostToken| is_post_whitespace(t);
    let t = spec_trim_whitespace(s);
    crate::format::token::lemma_trim_suffix_stable(s, q);
    let t2 = if t.len() > 0 {
        t.push(PostToken::Newline)
    } else {
        t
    };
    let extra = if t.len() > 0 {
        seq![PostToken::Newline, PostToken::Newline] + indents(p1.indent_width())
    } else {
        seq![PostToken::Newline] + indents(p1.indent_width())
    };
    assert(s1 =~= t + extra);
    lemma_trim_suffix_append(t, extra, q);
    assert(p1.at_start() == p1);
}

/// After trimming whitespace the stream never ends in whitespace.
pub proof fn lemma_trim_whitespace_leaves_no_whitespace(s: Seq<PostToken>)
    ensures
        spec_trim_whitespace(s).len() == 0 || !is_post_whitespace(spec_trim_whitespace(s).last()),
        spec_trim_whitespace(spec_trim_whitespace(s)) == spec_trim_whitespace(s),
{
    crate::format::token::lemma_trim_suffix_stable(s, |t: PostToken| is_post_whitespace(t));
}

/// Whether two sequences of postprocessed tokens are the same token for
/// token (literals by their text).
pub open spec fn same_posts(a: Seq<PostToken>, b: Seq<PostToken>) -> bool {
    &&& a.len() == b.len()
    &&& forall|i: int| 0 <= i < a.len() ==> #[trigger] a[i].same_as(&b[i])
}

/// Whether two optional tokens are both absent or have the same view.
pub open spec fn same_next(a: Option<PreToken>, b: Option<PreToken>) -> bool {
    match (a, b) {
        (None, None) => true,
        (Some(x), Some(y)) => x@ == y@,
        _ => false,
    }
}

/// Tokens that are the same stay the same when a token the same as
/// another is added to each.
proof fn lemma_same_posts_push(a: Seq<PostToken>, b: Seq<PostToken>, x: PostToken, y: PostToken)
    requires
        same_posts(a, b),
        x.same_as(&y),
    ensures
        same_posts(a.push(x), b.push(y)),
{
    assert forall|i: int| 0 <= i < a.len() + 1 implies #[trigger] a.push(x)[i].same_as(
        &b.push(y)[i],
    ) by {
        if i < a.len() {
            assert(a.push(x)[i] == a[i]);
            assert(b.push(y)[i] == b[i]);
        }
    }
}

/// Tokens that are the same stay the same when the same tokens follow.
proof fn lemma_same_posts_append(a: Seq<PostToken>, b: Seq<PostToken>, c: Seq<PostToken>)
    requires
        same_posts(a, b),
    ensures
        same_posts(a + c, b + c),
{
    assert forall|i: int| 0 <= i < a.len() + c.len() implies #[trigger] (a + c)[i].same_as(
        &(b + c)[i],
    ) by {
        if i >= a.len() {
            assert((a + c)[i] == c[i - a.len()]);
            assert((b + c)[i] == c[i - a.len()]);
        }
    }
}

/// Two sequences of postprocessed tokens concatenated are the same when
/// their parts are.
proof fn lemma_same_posts_concat(a: Seq<PostToken>, b: Seq<PostToken>, c: Seq<PostToken>, d: Seq<PostToken>)
    requires
        same_posts(a, b),
        same_posts(c, d),
    ensures
        same_posts(a + c, b + d),
{
    assert forall|i: int| 0 <= i < a.len() + c.len() implies #[trigger] (a + c)[i].same_as(
        &(b + d)[i],
    ) by {
        if i >= a.len() {
            assert((a + c)[i] == c[i - a.len()]);
            assert((b + d)[i] == d[i - a.len()]);
        }
    }
}

/// Trimming with a predicate that cannot tell tokens that are the same
/// apart keeps sequences the same.
proof fn lemma_same_posts_trim(a: Seq<PostToken>, b: Seq<PostToken>, p: spec_fn(PostToken) -> bool)
    requires
        same_posts(a, b),
        forall|x: PostToken, y: PostToken| #[trigger] x.same_as(&y) ==> p(x) == p(y),
    ensures
        same_posts(trim_suffix(a, p), trim_suffix(b, p)),
    decreases a.len(),
{
    if a.len() > 0 {
        assert(a.last().same_as(&b.last()));
        if p(a.last()) {
            assert forall|i: int| 0 <= i < a.len() - 1 implies #[trigger] a.drop_last()[i].same_as(
                &b.drop_last()[i],
            ) by {
                assert(a[i].same_as(&b[i]));
            }
            lemma_same_posts_trim(a.drop_last(), b.drop_last(), p);
        }
    }
}

/// Trimming whitespace, or spaces and indentations, keeps sequences the
/// same; so does dropping trailing spaces.
proof fn lemma_same_posts_trims(a: Seq<PostToken>, b: Seq<PostToken>)
    requires
        same_posts(a, b),
    ensures
        same_posts(spec_trim_whitespace(a), spec_trim_whitespace(b)),
        same_posts(spec_trim_last_line(a), spec_trim_last_line(b)),
        same_posts(trim_same(a, PostToken::Space), trim_same(b, PostToken::Space)),
{
    lemma_same_posts_trim(a, b, |t: PostToken| is_post_whitespace(t));
    lemma_same_posts_trim(a, b, |t: PostToken| is_space_or_indent(t));
    lemma_trim_same_suffix(a, PostToken::Space);
    lemma_trim_same_suffix(b, PostToken::Space);
    lemma_same_posts_trim(a, b, |t: PostToken| t.same_as(&PostToken::Space));
}

/// Sequences that are the same have the same text and length.
pub proof fn lemma_same_posts_render(a: Seq<PostToken>, b: Seq<PostToken>, config: Config)
    requires
        same_posts(a, b),
    ensures
        render(a, config) == render(b, config),
        stream_len(a, config) == stream_len(b, config),
    decreases a.len(),
{
    if a.len() > 0 {
        assert(a.last().same_as(&b.last()));
        assert forall|i: int| 0 <= i < a.len() - 1 implies #[trigger] a.drop_last()[i].same_as(
            &b.drop_last()[i],
        ) by {
            assert(a[i].same_as(&b[i]));
        }
        lemma_same_posts_render(a.drop_last(), b.drop_last(), config);
    }
}

/// Sequences that are the same have last lines that are the same.
proof fn lemma_same_posts_last_line(a: Seq<PostToken>, b: Seq<PostToken>)
    requires
        same_posts(a, b),
    ensures
        last_line_start(a) == last_line_start(b),
        same_posts(last_line(a), last_line(b)),
    decreases a.len(),
{
    if a.len() > 0 {
        assert(a.last().same_as(&b.last()));
        assert forall|i: int| 0 <= i < a.len() - 1 implies #[trigger] a.drop_last()[i].same_as(
            &b.drop_last()[i],
        ) by {
            assert(a[i].same_as(&b[i]));
        }
        lemma_same_posts_last_line(a.drop_last(), b.drop_last());
    }
    lemma_last_line_start_bound(a);
    let k = last_line_start(a) as int;
    assert(last_line(a).len() == a.len() - k);
    assert(last_line(b).len() == b.len() - k);
    assert forall|i: int| 0 <= i < a.len() - k implies #[trigger] last_line(a)[i].same_as(
        &last_line(b)[i],
    ) by {
        assert(a[i + k].same_as(&b[i + k]));
    }
}

impl Postprocessor {
    /// Ending a line of outputs that are the same gives the same state and
    /// outputs that are the same; so does adding a blank line.
    proof fn lemma_end_line_same(self, a: Seq<PostToken>, b: Seq<PostToken>)
        requires
            same_posts(a, b),
        ensures
            self.spec_end_line(a).0 == self.spec_end_line(b).0,
            same_posts(self.spec_end_line(a).1, self.spec_end_line(b).1),
            self.spec_blank_line(a).0 == self.spec_blank_line(b).0,
            same_posts(self.spec_blank_line(a).1, self.spec_blank_line(b).1),
    {
        lemma_same_posts_trims(a, b);
        let ind = indents(self.at_start().indent_width());
        let t = spec_trim_last_line(a);
        let u = spec_trim_last_line(b);
        if self.spec_position() != LinePosition::StartOfLine {
            lemma_same_posts_push(t, u, PostToken::Newline, PostToken::Newline);
            lemma_same_posts_append(t.push(PostToken::Newline), u.push(PostToken::Newline), ind);
        } else {
            lemma_same_posts_append(t, u, ind);
        }
        let w = spec_trim_whitespace(a);
        let x = spec_trim_whitespace(b);
        let w2 = if w.len() > 0 {
            w.push(PostToken::Newline)
        } else {
            w
        };
        let x2 = if x.len() > 0 {
            x.push(PostToken::Newline)
        } else {
            x
        };
        if w.len() > 0 {
            lemma_same_posts_push(w, x, PostToken::Newline, PostToken::Newline);
        }
        lemma_same_posts_push(w2, x2, PostToken::Newline, PostToken::Newline);
        lemma_same_posts_append(w2.push(PostToken::Newline), x2.push(PostToken::Newline), ind);
    }

    /// A step on tokens with the same view, the same view of the next
    /// token, and outputs that are the same, gives the same state and
    /// outputs that are the same.
    #[verifier::spinoff_prover]
    #[verifier::rlimit(60)]
    proof fn lemma_step_same(
        self,
        t1: PreToken,
        t2: PreToken,
        n1: Option<PreToken>,
        n2: Option<PreToken>,
        a: Seq<PostToken>,
        b: Seq<PostToken>,
    )
        requires
            t1@ == t2@,
            same_next(n1, n2),
            same_posts(a, b),
        ensures
            self.spec_step(t1, n1, a).0 == self.spec_step(t2, n2, b).0,
            same_posts(self.spec_step(t1, n1, a).1, self.spec_step(t2, n2, b).1),
    {
        if a.len() > 0 {
            assert(a.last().same_as(&b.last()));
        }
        match (t1, t2) {
            (PreToken::Literal(v1, k), PreToken::Literal(v2, k2)) => {
                assert(v1@ == v2@ && k == k2);
                let c = self.spec_interrupted() && opens_region(k) && a.len() > 0 && a.last()
                    == PostToken::Indent;
                let d = self.spec_interrupted() && opens_region(k) && b.len() > 0 && b.last()
                    == PostToken::Indent;
                assert(c == d);
                let ta = if c {
                    a.drop_last()
                } else {
                    a
                };
                let tb = if d {
                    b.drop_last()
                } else {
                    b
                };
                if c {
                    assert forall|i: int| 0 <= i < a.len() - 1 implies #[trigger] a.drop_last()[i].same_as(
                        &b.drop_last()[i],
                    ) by {
                        assert(a[i].same_as(&b[i]));
                    }
                }
                lemma_same_posts_push(ta, tb, PostToken::Literal(v1), PostToken::Literal(v2));
            },
            (
                PreToken::Trivia(Trivia::Comment(Comment::Preceding(v1))),
                PreToken::Trivia(Trivia::Comment(Comment::Preceding(v2))),
            ) => {
                let la = a.len() == 0 || a.last() matches PostToken::Newline || a.last() matches PostToken::Indent;
                let lb = b.len() == 0 || b.last() matches PostToken::Newline || b.last() matches PostToken::Indent;
                assert(la == lb);
                let p = if !la {
                    self.with_interrupted(true)
                } else {
                    self
                };
                p.lemma_end_line_same(a, b);
                let (p2, x) = p.spec_end_line(a);
                let (_, y) = p.spec_end_line(b);
                lemma_same_posts_push(x, y, PostToken::Literal(v1), PostToken::Literal(v2));
                p2.at_middle().lemma_end_line_same(x.push(PostToken::Literal(v1)), y.push(PostToken::Literal(v2)));
            },
            (
                PreToken::Trivia(Trivia::Comment(Comment::Inline(v1))),
                PreToken::Trivia(Trivia::Comment(Comment::Inline(v2))),
            ) => {
                let p = if n1 is Some && !(n1 matches Some(PreToken::LineEnd)) {
                    self.with_interrupted(true)
                } else {
                    self
                };
                lemma_same_posts_trims(a, b);
                let x = spec_trim_last_line(a);
                let y = spec_trim_last_line(b);
                lemma_same_posts_push(x, y, PostToken::Space, PostToken::Space);
                lemma_same_posts_push(x.push(PostToken::Space), y.push(PostToken::Space), PostToken::Space, PostToken::Space);
                lemma_same_posts_push(
                    x.push(PostToken::Space).push(PostToken::Space),
                    y.push(PostToken::Space).push(PostToken::Space),
                    PostToken::Literal(v1),
                    PostToken::Literal(v2),
                );
                p.lemma_end_line_same(
                    x.push(PostToken::Space).push(PostToken::Space).push(PostToken::Literal(v1)),
                    y.push(PostToken::Space).push(PostToken::Space).push(PostToken::Literal(v2)),
                );
            },
            _ => match t1 {
                PreToken::BlankLine => {
                    self.lemma_end_line_same(a, b);
                },
                PreToken::LineEnd => {
                    self.with_interrupted(false).lemma_end_line_same(a, b);
                },
                PreToken::WordEnd => {
                    lemma_same_posts_trims(a, b);
                    lemma_same_posts_push(
                        trim_same(a, PostToken::Space),
                        trim_same(b, PostToken::Space),
                        PostToken::Space,
                        PostToken::Space,
                    );
                },
                PreToken::IndentStart => {
                    self.with_level((self.spec_indent_level() + 1) as usize).lemma_end_line_same(a, b);
                },
                PreToken::IndentEnd => {
                    self.with_level(
                        if self.spec_indent_level() == 0 {
                            0
                        } else {
                            (self.spec_indent_level() - 1) as usize
                        },
                    ).lemma_end_line_same(a, b);
                },
                PreToken::Trivia(Trivia::BlankLine) => {
                    self.lemma_end_line_same(a, b);
                },
                _ => {},
            },
        }
    }
}

/// Token streams with the same views have the same break points.
proof fn lemma_breaks_same(s1: Seq<PreToken>, s2: Seq<PreToken>, j: int)
    requires
        views(s1) == views(s2),
    ensures
        breaks_upto(s1, j) == breaks_upto(s2, j),
    decreases j,
{
    assert(views(s1).len() == s1.len() && views(s2).len() == s2.len());
    if j > 0 {
        lemma_breaks_same(s1, s2, j - 1);
        let i = j - 1;
        if 0 <= i < s1.len() {
            assert(views(s1)[i] == s1[i]@ && views(s2)[i] == s2[i]@);
        }
        if 1 <= i <= s1.len() {
            assert(views(s1)[i - 1] == s1[i - 1]@ && views(s2)[i - 1] == s2[i - 1]@);
        }
        assert(is_break(s1, i) == is_break(s2, i));
    }
}

impl Postprocessor {
    /// A pass over token streams with the same views, from outputs that are
    /// the same, gives the same state and outputs that are the same.
    proof fn lemma_pass_same(
        self,
        s1: Seq<PreToken>,
        s2: Seq<PreToken>,
        brk: Seq<usize>,
        max_breaks: nat,
        i: nat,
        inserted: nat,
        a: Seq<PostToken>,
        b: Seq<PostToken>,
    )
        requires
            views(s1) == views(s2),
            same_posts(a, b),
        ensures
            self.spec_pass(s1, brk, max_breaks, i, inserted, a).0 == self.spec_pass(
                s2,
                brk,
                max_breaks,
                i,
                inserted,
                b,
            ).0,
            same_posts(
                self.spec_pass(s1, brk, max_breaks, i, inserted, a).1,
                self.spec_pass(s2, brk, max_breaks, i, inserted, b).1,
            ),
        decreases s1.len() - i,
    {
        assert(views(s1).len() == s1.len() && views(s2).len() == s2.len());
        if i < s1.len() {
            let breaks_here = inserted < max_breaks && brk.contains(i as usize);
            if breaks_here {
                self.lemma_step_same(PreToken::LineEnd, PreToken::LineEnd, None, None, a, b);
            }
            let (p1, o1) = if breaks_here {
                self.spec_step(PreToken::LineEnd, None, a)
            } else {
                (self, a)
            };
            let (_, o2) = if breaks_here {
                self.spec_step(PreToken::LineEnd, None, b)
            } else {
                (self, b)
            };
            let ins1 = if breaks_here {
                inserted + 1
            } else {
                inserted
            };
            assert(views(s1)[i as int] == s1[i as int]@ && views(s2)[i as int] == s2[i as int]@);
            let n1 = if i + 1 < s1.len() {
                Some(s1[i + 1int])
            } else {
                None
            };
            let n2 = if i + 1 < s2.len() {
                Some(s2[i + 1int])
            } else {
                None
            };
            if i + 1 < s1.len() {
                assert(views(s1)[i + 1int] == s1[i + 1int]@ && views(s2)[i + 1int] == s2[i + 1int]@);
            }
            p1.lemma_step_same(s1[i as int], s2[i as int], n1, n2, o1, o2);
            let (p2, o3) = p1.spec_step(s1[i as int], n1, o1);
            let (_, o4) = p1.spec_step(s2[i as int], n2, o2);
            p2.lemma_pass_same(s1, s2, brk, max_breaks, i + 1, ins1, o3, o4);
        }
    }

    /// The break passes over token streams with the same views, from outputs
    /// that are the same, give the same state and outputs that are the same.
    proof fn lemma_break_passes_same(
        self,
        s1: Seq<PreToken>,
        s2: Seq<PreToken>,
        brk: Seq<usize>,
        m: nat,
        max: nat,
        config: Config,
        a: Seq<PostToken>,
        b: Seq<PostToken>,
    )
        requires
            views(s1) == views(s2),
            same_posts(a, b),
        ensures
            self.spec_break_passes(s1, brk, m, max, config, a).0 == self.spec_break_passes(
                s2,
                brk,
                m,
                max,
                config,
                b,
            ).0,
            same_posts(
                self.spec_break_passes(s1, brk, m, max, config, a).1,
                self.spec_break_passes(s2, brk, m, max, config, b).1,
            ),
        decreases brk.len() + 1 - m,
    {
        if m <= brk.len() {
            self.lemma_pass_same(s1, s2, brk, m, 0, 0, Seq::empty(), Seq::empty());
            let (p, o1) = self.spec_pass(s1, brk, m, 0, 0, Seq::empty());
            let (_, o2) = self.spec_pass(s2, brk, m, 0, 0, Seq::empty());
            lemma_same_posts_last_line(o1, o2);
            lemma_same_posts_render(last_line(o1), last_line(o2), config);
            if !(stream_len(last_line(o1), config) <= max) {
                p.lemma_break_passes_same(s1, s2, brk, m + 1, max, config, o1, o2);
            }
        }
    }

    /// Flushing token streams with the same views onto outputs that are the
    /// same gives the same state and outputs that are the same.
    proof fn lemma_flush_same(
        self,
        s1: Seq<PreToken>,
        s2: Seq<PreToken>,
        a: Seq<PostToken>,
        b: Seq<PostToken>,
        config: Config,
    )
        requires
            views(s1) == views(s2),
            same_posts(a, b),
        ensures
            self.spec_flush(s1, a, config).0 == self.spec_flush(s2, b, config).0,
            same_posts(self.spec_flush(s1, a, config).1, self.spec_flush(s2, b, config).1),
    {
        lemma_breaks_same(s1, s2, s1.len() + 1int);
        assert(views(s1).len() == s1.len() && views(s2).len() == s2.len());
        let brk = line_breaks(s1);
        assert(line_breaks(s2) == brk);
        self.lemma_pass_same(s1, s2, brk, 0, 0, 0, Seq::empty(), Seq::empty());
        let (p1, o1) = self.spec_pass(s1, brk, 0, 0, 0, Seq::empty());
        let (_, o2) = self.spec_pass(s2, brk, 0, 0, 0, Seq::empty());
        lemma_same_posts_render(o1, o2, config);
        lemma_same_posts_concat(a, b, o1, o2);
        match config.spec_max_line_length() {
            None => {},
            Some(max) => {
                if !(stream_len(o1, config) <= max) {
                    p1.lemma_break_passes_same(s1, s2, brk, 1, max as nat, config, o1, o2);
                    let (_, q1) = p1.spec_break_passes(s1, brk, 1, max as nat, config, o1);
                    let (_, q2) = p1.spec_break_passes(s2, brk, 1, max as nat, config, o2);
                    lemma_same_posts_concat(a, b, q1, q2);
                }
            },
        }
    }

    /// Running over token streams with the same views, from outputs and
    /// line buffers that are the same, gives the same state and outputs
    /// that are the same.
    proof fn lemma_run_from_same(
        self,
        s1: Seq<PreToken>,
        s2: Seq<PreToken>,
        i: nat,
        a: Seq<PostToken>,
        b: Seq<PostToken>,
        buf1: Seq<PreToken>,
        buf2: Seq<PreToken>,
        config: Config,
    )
        requires
            views(s1) == views(s2),
            same_posts(a, b),
            views(buf1) == views(buf2),
        ensures
            self.spec_run_from(s1, i, a, buf1, config).0 == self.spec_run_from(
                s2,
                i,
                b,
                buf2,
                config,
            ).0,
            same_posts(
                self.spec_run_from(s1, i, a, buf1, config).1,
                self.spec_run_from(s2, i, b, buf2, config).1,
            ),
        decreases s1.len() - i,
    {
        assert(views(s1).len() == s1.len() && views(s2).len() == s2.len());
        if i < s1.len() {
            assert(views(s1)[i as int] == s1[i as int]@ && views(s2)[i as int] == s2[i as int]@);
            if s1[i as int] is LineEnd {
                self.lemma_flush_same(buf1, buf2, a, b, config);
                let (p1, o1) = self.spec_flush(buf1, a, config);
                let (_, o2) = self.spec_flush(buf2, b, config);
                lemma_same_posts_trims(o1, o2);
                lemma_same_posts_push(
                    spec_trim_whitespace(o1),
                    spec_trim_whitespace(o2),
                    PostToken::Newline,
                    PostToken::Newline,
                );
                assert(views(seq![s1[i as int]]) =~= views(seq![s2[i as int]]));
                p1.at_start().lemma_run_from_same(
                    s1,
                    s2,
                    i + 1,
                    spec_trim_whitespace(o1).push(PostToken::Newline),
                    spec_trim_whitespace(o2).push(PostToken::Newline),
                    seq![s1[i as int]],
                    seq![s2[i as int]],
                    config,
                );
            } else {
                assert(views(buf1.push(s1[i as int])) =~= views(buf1).push(s1[i as int]@));
                assert(views(buf2.push(s2[i as int])) =~= views(buf2).push(s2[i as int]@));
                self.lemma_run_from_same(
                    s1,
                    s2,
                    i + 1,
                    a,
                    b,
                    buf1.push(s1[i as int]),
                    buf2.push(s2[i as int]),
                    config,
                );
            }
        }
    }
}

/// Postprocessing depends on the tokens only through their views: token
/// streams with the same views are postprocessed into token streams that
/// are the same, and so into the same text.
pub proof fn lemma_run_same(s1: Seq<PreToken>, s2: Seq<PreToken>, config: Config)
    requires
        views(s1) == views(s2),
    ensures
        same_posts(
            Postprocessor::spec_initial().spec_run(s1, config).1,
            Postprocessor::spec_initial().spec_run(s2, config).1,
        ),
        render(Postprocessor::spec_initial().spec_run(s1, config).1, config) == render(
            Postprocessor::spec_initial().spec_run(s2, config).1,
            config,
        ),
{
    assert(views(Seq::<PreToken>::empty()) =~= views(Seq::<PreToken>::empty()));
    Postprocessor::spec_initial().lemma_run_from_same(
        s1,
        s2,
        0,
        Seq::empty(),
        Seq::empty(),
        Seq::empty(),
        Seq::empty(),
        config,
    );
    lemma_same_posts_render(
        Postprocessor::spec_initial().spec_run(s1, config).1,
        Postprocessor::spec_initial().spec_run(s2, config).1,
        config,
    );
}

/// A line may be broken after each opening bracket and before each closing
/// one, for every kind of bracket (braces, brackets, parentheses and
/// heredoc delimiters), and nowhere else; the kinds come in matching pairs,
/// so the break places are symmetric.
pub proof fn lemma_break_places(kind: SyntaxKind)
    ensures
        closes_region(kind) <==> (kind == SyntaxKind::CloseBrace || kind == SyntaxKind::CloseBracket
            || kind == SyntaxKind::CloseParen || kind == SyntaxKind::CloseHeredoc),
        opens_region(kind) <==> (kind == SyntaxKind::OpenBrace || kind == SyntaxKind::OpenBracket
            || kind == SyntaxKind::OpenParen || kind == SyntaxKind::OpenHeredoc),
        !(opens_region(kind) && closes_region(kind)),
        opens_region(SyntaxKind::OpenBrace) && closes_region(SyntaxKind::CloseBrace),
        opens_region(SyntaxKind::OpenBracket) && closes_region(SyntaxKind::CloseBracket),
        opens_region(SyntaxKind::OpenParen) && closes_region(SyntaxKind::CloseParen),
        opens_region(SyntaxKind::OpenHeredoc) && closes_region(SyntaxKind::CloseHeredoc),
{
}

} // verus!
