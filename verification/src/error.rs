use vstd::prelude::*;

verus! {

/// Errors raised by the anonymization engine.
///
/// Construction problems (an unusable stage source or an invalid pattern)
/// are configuration errors; the remaining variants are per-call errors.
#[derive(Debug, PartialEq, Eq, Structural)]
pub enum AnonymizeError {
    /// A stage source could not be used or a pattern did not compile.
    Config,
    /// Neither a per-call override nor a stage-configured prefix was given.
    MissingReplacementPrefix,
    /// A label-stage offset fell outside the current text after delta
    /// adjustment, or start exceeded end.
    Range,
    /// A per-call replacement-prefix override was requested against a stage
    /// that does not support one.
    UnsupportedOperation,
}

impl AnonymizeError {
    /// A short description of the error.
    pub fn message(&self) -> (r: &'static str)
        ensures
            r@ == self.spec_message(),
    {
        match self {
            AnonymizeError::Config => "configuration error",
            AnonymizeError::MissingReplacementPrefix => "SET REPLACEMENT",
            AnonymizeError::Range => "Invalid range",
            AnonymizeError::UnsupportedOperation => "unsupported operation",
        }
    }

    pub open spec fn spec_message(&self) -> Seq<char> {
        match self {
            AnonymizeError::Config => "configuration error"@,
            AnonymizeError::MissingReplacementPrefix => "SET REPLACEMENT"@,
            AnonymizeError::Range => "Invalid range"@,
            AnonymizeError::UnsupportedOperation => "unsupported operation"@,
        }
    }
}

/// Session-level errors kept for API compatibility with the service layer.
#[derive(Debug, PartialEq, Eq, Structural)]
pub enum LLMError {
    SessionNotExists,
    UserExists,
    UserLoginError,
}

impl LLMError {
    /// A short description of the error.
    pub fn message(&self) -> (r: &'static str)
        ensures
            r@ == self.spec_message(),
    {
        match self {
            LLMError::SessionNotExists => "Session not exists",
            LLMError::UserExists => "User exists",
            LLMError::UserLoginError => "Login error",
        }
    }

    pub open spec fn spec_message(&self) -> Seq<char> {
        match self {
            LLMError::SessionNotExists => "Session not exists"@,
            LLMError::UserExists => "User exists"@,
            LLMError::UserLoginError => "Login error"@,
        }
    }
}

} // verus!
