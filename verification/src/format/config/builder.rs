//! A builder for a formatting configuration.
use vstd::prelude::*;
use vstd::string::*;

use super::max_line_length::MaxLineLength;
use super::max_line_length::DEFAULT_MAX_LINE_LENGTH;
use super::Config;
use super::Indent;
use super::DEFAULT_INDENT_SPACES;

verus! {

/// An error related to a [`Builder`].
#[derive(Clone, Copy, Debug, PartialEq, Eq)]
pub enum BuilderError {
    /// A required value was missing for a builder field.
    Missing(&'static str),
    /// An invalid value was provided for a builder field.
    Invalid(&'static str),
}

impl BuilderError {
    /// Describes the error.
    pub fn message(&self) -> (m: String)
        ensures
            match self {
                BuilderError::Missing(field) => m@ == "missing required value for '"@ + field@
                    + "' in a formatter configuration builder"@,
                BuilderError::Invalid(field) => m@ == "invalid value for '"@ + field@
                    + "' in a formatter configuration builder"@,
            },
    {
        match self {
            BuilderError::Missing(field) => {
                let mut m = String::from_str("missing required value for '");
                m.append(field);
                m.append("' in a formatter configuration builder");
                m
            },
            BuilderError::Invalid(field) => {
                let mut m = String::from_str("invalid value for '");
                m.append(field);
                m.append("' in a formatter configuration builder");
                m
            },
        }
    }
}

/// A builder for a [`Config`].
#[derive(Clone, Copy, Debug)]
pub struct Builder {
    /// The indentation, if set.
    indent: Option<Indent>,
    /// The maximum line length, if set.
    max_line_length: Option<MaxLineLength>,
}

impl Default for Builder {
    fn default() -> (b: Self)
        ensures
            b.spec_indent() is None,
            b.spec_max_line_length() is None,
    {
        Builder { indent: None, max_line_length: None }
    }
}

impl Builder {
    /// The indentation set so far.
    pub closed spec fn spec_indent(self) -> Option<Indent> {
        self.indent
    }

    /// The maximum line length set so far.
    pub closed spec fn spec_max_line_length(self) -> Option<MaxLineLength> {
        self.max_line_length
    }

    /// Sets the indentation, overwriting any earlier value.
    pub fn indent(self, indent: Indent) -> (b: Self)
        ensures
            b.spec_indent() == Some(indent),
            b.spec_max_line_length() == self.spec_max_line_length(),
    {
        Builder { indent: Some(indent), ..self }
    }

    /// Sets the maximum line length, overwriting any earlier value.
    pub fn max_line_length(self, max_line_length: MaxLineLength) -> (b: Self)
        ensures
            b.spec_max_line_length() == Some(max_line_length),
            b.spec_indent() == self.spec_indent(),
    {
        Builder { max_line_length: Some(max_line_length), ..self }
    }

    /// Consumes the builder to build a [`Config`]; unset fields take their
    /// defaults.
    pub fn build(self) -> (c: Config)
        ensures
            c.spec_indent() == match self.spec_indent() {
                Some(i) => i,
                None => Indent::Spaces(DEFAULT_INDENT_SPACES),
            },
            c.spec_max_line_length() == match self.spec_max_line_length() {
                Some(m) => m.spec_get(),
                None => Some(DEFAULT_MAX_LINE_LENGTH),
            },
    {
        let indent = match self.indent {
            Some(i) => i,
            None => Indent::default(),
        };
        let max_line_length = match self.max_line_length {
            Some(m) => m,
            None => MaxLineLength::default(),
        };
        Config { indent, max_line_length }
    }
}

} // verus!
