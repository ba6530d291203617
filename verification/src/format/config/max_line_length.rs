//! Configuration of the maximum line length.
use vstd::prelude::*;
use vstd::string::*;

verus! {

/// The default maximum line length.
pub const DEFAULT_MAX_LINE_LENGTH: usize = 90;

/// The smallest accepted maximum line length (other than `0`, which disables
/// the limit).
pub const MIN_ACCEPTED_LINE_LENGTH: usize = 60;

/// The largest accepted maximum line length.
pub const MAX_ACCEPTED_LINE_LENGTH: usize = 240;

/// The error type for the maximum line length configuration.
#[derive(Clone, Copy, Debug, PartialEq, Eq)]
pub enum MaxLineLengthError {
    /// The max line length is invalid; names the offending field.
    Invalid(&'static str),
}

impl MaxLineLengthError {
    /// Describes the error.
    pub fn message(&self) -> (m: String)
        ensures
            match self {
                MaxLineLengthError::Invalid(field) => m@ == "invalid value for '"@ + field@
                    + "' in a formatter configuration builder"@,
            },
    {
        match self {
            MaxLineLengthError::Invalid(field) => {
                let mut m = String::from_str("invalid value for '");
                m.append(field);
                m.append("' in a formatter configuration builder");
                m
            },
        }
    }
}

/// The maximum line length; `None` means lines are never broken.
#[derive(Clone, Copy, Debug, PartialEq, Eq, Structural)]
pub struct MaxLineLength(Option<usize>);

impl MaxLineLength {
    /// The limit this value stands for.
    pub closed spec fn spec_get(self) -> Option<usize> {
        self.0
    }

    /// Whether `value` is accepted by [`MaxLineLength::with_value`].
    pub open spec fn accepted(value: usize) -> bool {
        value == 0 || (MIN_ACCEPTED_LINE_LENGTH <= value <= MAX_ACCEPTED_LINE_LENGTH)
    }

    /// Creates a new `MaxLineLength` with the provided value: `0` disables
    /// the limit, values from 60 to 240 set it, and any other value is
    /// invalid.
    pub fn with_value(value: usize) -> (r: Result<Self, MaxLineLengthError>)
        ensures
            r is Ok <==> Self::accepted(value),
            r matches Ok(m) ==> m.spec_get() == (if value == 0 { None } else { Some(value) }),
            r matches Err(e) ==> e == MaxLineLengthError::Invalid("max_line_length"),
    {
        if value == 0 {
            Ok(MaxLineLength(None))
        } else if MIN_ACCEPTED_LINE_LENGTH <= value && value <= MAX_ACCEPTED_LINE_LENGTH {
            Ok(MaxLineLength(Some(value)))
        } else {
            Err(MaxLineLengthError::Invalid("max_line_length"))
        }
    }

    /// Gets the maximum line length.
    pub fn get(&self) -> (r: Option<usize>)
        ensures
            r == self.spec_get(),
    {
        self.0
    }
}

impl MaxLineLength {
    /// The default limit: lines of at most 90 characters.
    pub closed spec fn spec_default() -> MaxLineLength {
        MaxLineLength(Some(DEFAULT_MAX_LINE_LENGTH))
    }
}

impl Default for MaxLineLength {
    fn default() -> (m: Self)
        ensures
            m == MaxLineLength::spec_default(),
            m.spec_get() == Some(DEFAULT_MAX_LINE_LENGTH),
    {
        MaxLineLength(Some(DEFAULT_MAX_LINE_LENGTH))
    }
}

} // verus!
