use vstd::prelude::*;

verus! {

/// An error of the rule engine.
#[derive(Debug)]
pub enum RescError {
    /// A template placeholder had no value in the property map;
    /// holds the name of the missing key.
    MissingProperty(String),
    /// A rule condition was not a valid regular expression.
    InvalidRegex,
}

/// The result type of the rule engine.
pub type RescResult<T> = Result<T, RescError>;

impl RescError {
    /// A short description of the error, for reporting outside the engine.
    pub fn describe(&self) -> (r: &'static str)
        ensures
            self is MissingProperty ==> r@ == "missing property"@,
            self is InvalidRegex ==> r@ == "invalid regex"@,
    {
        match self {
            RescError::MissingProperty(_) => "missing property",
            RescError::InvalidRegex => "invalid regex",
        }
    }
}

} // verus!
