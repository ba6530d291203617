//! Formatting state: the current indentation level and whether the current
//! line was interrupted by comments. An interrupted line forces the next
//! line(s) to be indented by one extra level.
use vstd::prelude::*;
use vstd::string::*;

verus! {

/// Space constant used for formatting.
pub const SPACE: &'static str = " ";

/// Indentation constant used for formatting.
pub const INDENT: &'static str = "    ";

/// `s` repeated `n` times.
pub open spec fn repeat(s: Seq<char>, n: nat) -> Seq<char>
    decreases n,
{
    if n == 0 {
        Seq::empty()
    } else {
        repeat(s, (n - 1) as nat) + s
    }
}

/// Appends `n` copies of `s` to `writer`.
pub fn append_repeated(writer: &mut String, s: &str, n: usize)
    ensures
        final(writer)@ == old(writer)@ + repeat(s@, n as nat),
{
    let mut i: usize = 0;
    while i < n
        invariant
            i <= n,
            writer@ == old(writer)@ + repeat(s@, i as nat),
        decreases n - i,
    {
        writer.append(s);
        i = i + 1;
        assert(writer@ == old(writer)@ + repeat(s@, i as nat));
    }
}

/// Keeps track of the current formatting state.
#[derive(Debug, Clone, Copy)]
pub struct State {
    /// The current indentation level.
    indent_level: usize,
    /// Whether the current line has been interrupted by comments.
    interrupted_by_comments: bool,
}

impl Default for State {
    fn default() -> (s: Self)
        ensures
            s.level() == 0,
            !s.is_interrupted(),
    {
        State { indent_level: 0, interrupted_by_comments: false }
    }
}

impl State {
    /// The current indentation level.
    pub closed spec fn level(self) -> usize {
        self.indent_level
    }

    /// Whether the current line has been interrupted by comments.
    pub closed spec fn is_interrupted(self) -> bool {
        self.interrupted_by_comments
    }

    /// The number of indentations written at the start of a line: one more
    /// than the level when the line was interrupted.
    pub open spec fn effective_level(self) -> nat {
        (self.level() + if self.is_interrupted() { 1nat } else { 0nat }) as nat
    }

    /// Adds the current indentation to the writer.
    pub fn indent(&self, writer: &mut String)
        requires
            self.level() < usize::MAX,
        ensures
            final(writer)@ == old(writer)@ + repeat(INDENT@, self.effective_level()),
    {
        let n = self.indent_level + if self.interrupted_by_comments { 1 } else { 0 };
        append_repeated(writer, INDENT, n);
    }

    /// Adds a space, or an indentation when the line was interrupted, then
    /// clears the interruption.
    pub fn space_or_indent(&mut self, writer: &mut String)
        requires
            old(self).level() < usize::MAX,
        ensures
            final(writer)@ == old(writer)@ + if old(self).is_interrupted() {
                repeat(INDENT@, old(self).effective_level())
            } else {
                SPACE@
            },
            final(self).level() == old(self).level(),
            !final(self).is_interrupted(),
    {
        if !self.interrupted_by_comments {
            writer.append(SPACE);
        } else {
            self.indent(writer);
        }
        self.reset_interrupted();
    }

    /// Adds a level of indentation and clears the interruption.
    pub fn increment_indent(&mut self)
        requires
            old(self).level() < usize::MAX,
        ensures
            final(self).level() == old(self).level() + 1,
            !final(self).is_interrupted(),
    {
        self.indent_level = self.indent_level + 1;
        self.reset_interrupted();
    }

    /// Removes a level of indentation (never below zero) and clears the
    /// interruption.
    pub fn decrement_indent(&mut self)
        ensures
            final(self).level() == if old(self).level() == 0 { 0 } else { (old(self).level()
                - 1) as usize },
            !final(self).is_interrupted(),
    {
        self.indent_level = self.indent_level.saturating_sub(1);
        self.reset_interrupted();
    }

    /// Checks whether the current line has been interrupted by comments.
    pub fn interrupted(&self) -> (b: bool)
        ensures
            b == self.is_interrupted(),
    {
        self.interrupted_by_comments
    }

    /// Interrupts the current line with comments.
    pub fn interrupt(&mut self)
        ensures
            final(self).is_interrupted(),
            final(self).level() == old(self).level(),
    {
        self.interrupted_by_comments = true;
    }

    /// Resets the interrupted state.
    pub fn reset_interrupted(&mut self)
        ensures
            !final(self).is_interrupted(),
            final(self).level() == old(self).level(),
    {
        self.interrupted_by_comments = false;
    }
}

/// The formatting state of the string-based formatter: like [`State`],
/// except that changing the indentation level keeps the interruption.
#[derive(Debug, Clone, Copy)]
pub struct FormatState {
    /// The current indentation level.
    indent_level: usize,
    /// Whether the current line has been interrupted by comments.
    interrupted_by_comments: bool,
}

impl Default for FormatState {
    fn default() -> (s: Self)
        ensures
            s.level() == 0,
            !s.is_interrupted(),
    {
        FormatState { indent_level: 0, interrupted_by_comments: false }
    }
}

impl FormatState {
    /// The current indentation level.
    pub closed spec fn level(self) -> usize {
        self.indent_level
    }

    /// Whether the current line has been interrupted by comments.
    pub closed spec fn is_interrupted(self) -> bool {
        self.interrupted_by_comments
    }

    /// The number of indentations written at the start of a line.
    pub open spec fn effective_level(self) -> nat {
        (self.level() + if self.is_interrupted() { 1nat } else { 0nat }) as nat
    }

    /// Adds the current indentation to the buffer.
    pub fn indent(&self, buffer: &mut String)
        requires
            self.level() < usize::MAX,
        ensures
            final(buffer)@ == old(buffer)@ + repeat(INDENT@, self.effective_level()),
    {
        let n = self.indent_level + if self.interrupted_by_comments { 1 } else { 0 };
        append_repeated(buffer, INDENT, n);
    }

    /// Adds a space, or an indentation when the line was interrupted, then
    /// clears the interruption.
    pub fn space_or_indent(&mut self, buffer: &mut String)
        requires
            old(self).level() < usize::MAX,
        ensures
            final(buffer)@ == old(buffer)@ + if old(self).is_interrupted() {
                repeat(INDENT@, old(self).effective_level())
            } else {
                SPACE@
            },
            final(self).level() == old(self).level(),
            !final(self).is_interrupted(),
    {
        if !self.interrupted_by_comments {
            buffer.append(SPACE);
        } else {
            self.indent(buffer);
        }
        self.reset_interrupted();
    }

    /// Adds a level of indentation.
    pub fn increment_indent(&mut self)
        requires
            old(self).level() < usize::MAX,
        ensures
            final(self).level() == old(self).level() + 1,
            final(self).is_interrupted() == old(self).is_interrupted(),
    {
        self.indent_level = self.indent_level + 1;
    }

    /// Removes a level of indentation (never below zero).
    pub fn decrement_indent(&mut self)
        ensures
            final(self).level() == if old(self).level() == 0 { 0 } else { (old(self).level()
                - 1) as usize },
            final(self).is_interrupted() == old(self).is_interrupted(),
    {
        self.indent_level = self.indent_level.saturating_sub(1);
    }

    /// Checks whether the current line has been interrupted by comments.
    pub fn interrupted(&self) -> (b: bool)
        ensures
            b == self.is_interrupted(),
    {
        self.interrupted_by_comments
    }

    /// Interrupts the current line with comments.
    pub fn interrupt(&mut self)
        ensures
            final(self).is_interrupted(),
            final(self).level() == old(self).level(),
    {
        self.interrupted_by_comments = true;
    }

    /// Resets the interrupted state.
    pub fn reset_interrupted(&mut self)
        ensures
            !final(self).is_interrupted(),
            final(self).level() == old(self).level(),
    {
        self.interrupted_by_comments = false;
    }
}

/// Raising the indentation level and lowering it again restores the level;
/// in between, the line is not interrupted, so it is indented once more than
/// before. (Raising it needs the level below `usize::MAX`, as
/// [`State::increment_indent`] requires.)
pub proof fn lemma_increment_decrement_restores(before: State, mid: State, after: State)
    requires
        mid.level() == before.level() + 1,
        !mid.is_interrupted(),
        after.level() == if mid.level() == 0 { 0 } else { (mid.level() - 1) as usize },
    ensures
        mid.effective_level() == before.level() + 1,
        after.level() == before.level(),
{
}

} // verus!
