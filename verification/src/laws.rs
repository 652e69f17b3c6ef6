use vstd::prelude::*;
use crate::envfmt::{all_renderable, object_env_text};
use crate::errors::EnvError;
use crate::payload::{payload_model, PayloadModel};

verus! {

/// What the transformation returns for a payload, as a function of the
/// payload characters alone: the file text, or the exact error. This is the
/// result `env_file_content` promises in its contract, gathered into one
/// spec function.
pub open spec fn content_of(payload: Seq<char>) -> Result<Seq<char>, EnvError> {
    match payload_model(payload) {
        PayloadModel::NotJson => Ok("SECRET_VALUE="@ + payload + "\n"@),
        PayloadModel::NonObject => Err(EnvError::InvalidSecretFormat),
        PayloadModel::Object(entries) => if all_renderable(entries) {
            Ok(object_env_text(entries))
        } else {
            Err(EnvError::Serialization)
        },
    }
}

/// The determinism law: the transformation's result is a function of the
/// payload alone, so running it twice on the same payload yields
/// byte-identical text.
pub proof fn lemma_content_deterministic(payload: Seq<char>, t1: Seq<char>, t2: Seq<char>)
    requires
        content_of(payload) == Result::<Seq<char>, EnvError>::Ok(t1),
        content_of(payload) == Result::<Seq<char>, EnvError>::Ok(t2),
    ensures
        t1 == t2,
{
}

} // verus!
