//! Formatting configuration.
use vstd::prelude::*;

pub mod builder;
pub mod max_line_length;

pub use builder::Builder;
pub use max_line_length::MaxLineLength;
pub use max_line_length::DEFAULT_MAX_LINE_LENGTH;

verus! {

/// The number of spaces in the default indentation.
pub const DEFAULT_INDENT_SPACES: usize = 4;

/// The maximum number of spaces to represent one indentation level.
pub const MAX_SPACE_INDENT: usize = 16;

/// An indentation level.
#[derive(Clone, Copy, Debug, PartialEq, Eq, Structural)]
pub enum Indent {
    /// Tabs.
    Tabs,
    /// Spaces.
    Spaces(usize),
}

impl Indent {
    /// The number of characters that one indentation occupies.
    pub open spec fn spec_num(self) -> usize {
        match self {
            Indent::Tabs => 1,
            Indent::Spaces(n) => n,
        }
    }

    /// Gets the number of characters to indent.
    pub fn num(&self) -> (n: usize)
        ensures
            n == self.spec_num(),
    {
        match self {
            Indent::Tabs => 1,
            Indent::Spaces(n) => *n,
        }
    }
}

impl Default for Indent {
    fn default() -> (i: Self)
        ensures
            i == Indent::Spaces(DEFAULT_INDENT_SPACES),
    {
        Indent::Spaces(DEFAULT_INDENT_SPACES)
    }
}

/// Whether to sort the inputs or not.
#[derive(Clone, Copy, Debug, PartialEq, Eq, Structural)]
pub enum SortInputs {
    /// Sort the inputs.
    Sort,
    /// Do not sort the inputs.
    NoSort,
}

impl Default for SortInputs {
    fn default() -> (s: Self)
        ensures
            s == SortInputs::Sort,
    {
        SortInputs::Sort
    }
}

impl SortInputs {
    /// Creates the setting from a flag.
    pub fn try_new(sort_inputs: bool) -> (s: Self)
        ensures
            s == (if sort_inputs { SortInputs::Sort } else { SortInputs::NoSort }),
    {
        if sort_inputs {
            SortInputs::Sort
        } else {
            SortInputs::NoSort
        }
    }

    /// Gets whether inputs are sorted.
    pub fn get(&self) -> (b: bool)
        ensures
            b == (*self == SortInputs::Sort),
    {
        match self {
            SortInputs::Sort => true,
            SortInputs::NoSort => false,
        }
    }
}

/// Configuration for formatting.
#[derive(Clone, Copy, Debug)]
pub struct Config {
    /// The indentation to use.
    indent: Indent,
    /// The maximum line length.
    max_line_length: MaxLineLength,
}

impl Config {
    /// The configured indentation.
    pub closed spec fn spec_indent(self) -> Indent {
        self.indent
    }

    /// The configured line length limit.
    pub closed spec fn spec_max_line_length(self) -> Option<usize> {
        self.max_line_length.spec_get()
    }

    /// Gets the indentation of the configuration.
    pub fn indent(&self) -> (i: Indent)
        ensures
            i == self.spec_indent(),
    {
        self.indent
    }

    /// Gets the maximum line length of the configuration (`None` when lines
    /// are never broken).
    pub fn max_line_length(&self) -> (m: Option<usize>)
        ensures
            m == self.spec_max_line_length(),
    {
        self.max_line_length.get()
    }
}

impl Config {
    /// The default configuration: four-space indentation and lines of at
    /// most 90 characters.
    pub closed spec fn spec_default() -> Config {
        Config {
            indent: Indent::Spaces(DEFAULT_INDENT_SPACES),
            max_line_length: MaxLineLength::spec_default(),
        }
    }
}

impl Default for Config {
    fn default() -> (c: Self)
        ensures
            c == Config::spec_default(),
            c.spec_indent() == Indent::Spaces(DEFAULT_INDENT_SPACES),
            c.spec_max_line_length() == Some(DEFAULT_MAX_LINE_LENGTH),
    {
        Config { indent: Indent::default(), max_line_length: MaxLineLength::default() }
    }
}

} // verus!
