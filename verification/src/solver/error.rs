use vstd::prelude::*;
use vstd::string::StringExecFns;

verus! {

/// Why a run failed.
#[derive(Debug)]
pub enum HitLeidenError {
    /// The configuration or the graph is malformed.
    InvalidInput(String),
    /// The graph backend is unavailable or its data is inconsistent.
    Backend(String),
    /// The requested acceleration backend failed.
    Acceleration(String),
}

impl HitLeidenError {
    /// The text that each error kind puts before its detail.
    pub open spec fn prefix(&self) -> Seq<char> {
        match self {
            HitLeidenError::InvalidInput(_) => "invalid input: "@,
            HitLeidenError::Backend(_) => "backend error: "@,
            HitLeidenError::Acceleration(_) => "acceleration error: "@,
        }
    }

    /// The detail that the error carries.
    pub open spec fn detail(&self) -> Seq<char> {
        match self {
            HitLeidenError::InvalidInput(s) => s@,
            HitLeidenError::Backend(s) => s@,
            HitLeidenError::Acceleration(s) => s@,
        }
    }

    /// The error as one line of text: the kind, then the detail.
    pub fn message(&self) -> (text: String)
        ensures
            text@ == self.prefix() + self.detail(),
    {
        match self {
            HitLeidenError::InvalidInput(s) => String::from_str("invalid input: ").concat(
                s.as_str(),
            ),
            HitLeidenError::Backend(s) => String::from_str("backend error: ").concat(s.as_str()),
            HitLeidenError::Acceleration(s) => String::from_str("acceleration error: ").concat(
                s.as_str(),
            ),
        }
    }
}

} // verus!
