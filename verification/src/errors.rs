use vstd::prelude::*;

verus! {

/// The failures the secret-to-env transformation itself can report.
///
/// Filesystem failures (directory creation, write, permission setting) belong
/// to the caller that performs the I/O; the transformation only decides what
/// text to write.
#[derive(Clone, Copy, PartialEq, Eq, Structural, Debug)]
pub enum EnvError {
    /// The payload parsed as JSON, but its top level is not an object,
    /// so no key names are available for `KEY=VALUE` lines.
    InvalidSecretFormat,
    /// A compound JSON value could not be re-serialized to a single line.
    Serialization,
}

impl EnvError {
    /// A human-readable description of the failure.
    pub fn message(&self) -> (r: &'static str)
        ensures
            *self is InvalidSecretFormat ==> r@ == "secret value must be a JSON object with key-value pairs"@,
            *self is Serialization ==> r@ == "failed to serialize complex JSON value"@,
    {
        match self {
            EnvError::InvalidSecretFormat => "secret value must be a JSON object with key-value pairs",
            EnvError::Serialization => "failed to serialize complex JSON value",
        }
    }
}

} // verus!
