use vstd::prelude::*;

pub mod arn;
pub mod envfmt;
pub mod errors;
pub mod laws;
pub mod lines;
pub mod payload;

verus! {

/// One request to turn a stored secret into an environment file.
pub struct EnvFileConfig {
    /// The secret's fully qualified identifier.
    pub secret_arn: String,
    /// The directory the environment file is written into.
    pub output_dir: String,
    /// An explicit file stem; when absent the stem is derived from the
    /// identifier.
    pub file_name: Option<String>,
}

/// The name of the environment file a request produces: the explicit stem if
/// one was given, otherwise the stem derived from the identifier, with the
/// `.env` extension appended.
pub open spec fn env_file_name_of(config: EnvFileConfig) -> Seq<char> {
    match config.file_name {
        Some(name) => name@ + ".env"@,
        None => crate::arn::stem_of(config.secret_arn@) + ".env"@,
    }
}

/// The file name (stem plus `.env`) for a request; the caller joins it onto
/// the output directory.
pub fn env_file_name(config: &EnvFileConfig) -> (r: String)
    ensures
        r@ == env_file_name_of(*config),
{
    let stem = match &config.file_name {
        Some(name) => name.clone(),
        None => crate::arn::extract_secret_name_from_arn(config.secret_arn.as_str()),
    };
    stem.concat(".env")
}

} // verus!
