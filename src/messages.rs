//! The texts that reach the user when an operation fails or finishes.
use vstd::prelude::*;
use crate::downloads::DownloadError;

verus! {

/// `prefix` followed by `detail`.
fn joined(prefix: &str, detail: &str) -> (r: String)
    ensures
        r@ == prefix@ + detail@,
{
    String::from_str(prefix).concat(detail)
}

/// A failure of the model server, as the generation and chat calls report it.
pub fn remote_error(detail: &str) -> (r: String)
    ensures
        r@ == "Ollama error: "@ + detail@,
{
    joined("Ollama error: ", detail)
}

/// A failure reported while a pull was under way.
pub fn pull_failed(detail: &str) -> (r: String)
    ensures
        r@ == "Failed: "@ + detail@,
{
    joined("Failed: ", detail)
}

/// A failure to start a pull.
pub fn add_failed(detail: &str) -> (r: String)
    ensures
        r@ == "Failed to add model: "@ + detail@,
{
    joined("Failed to add model: ", detail)
}

/// A failure to delete a model.
pub fn delete_failed(detail: &str) -> (r: String)
    ensures
        r@ == "Failed to delete model: "@ + detail@,
{
    joined("Failed to delete model: ", detail)
}

/// The answer to a model deleted.
pub fn deleted(name: &str) -> (r: String)
    ensures
        r@ == "Model '"@ + name@ + "' deleted."@,
{
    joined("Model '", name).concat("' deleted.")
}

/// A pull refused because the same model is already being pulled.
pub fn already_downloading(name: &str) -> (r: String)
    ensures
        r@ == "Model '"@ + name@ + "' is already being downloaded."@,
{
    joined("Model '", name).concat("' is already being downloaded.")
}

/// A pull refused because the name cannot identify a model.
pub fn malformed_name(name: &str) -> (r: String)
    ensures
        r@ == "Malformed model name: '"@ + name@ + "'."@,
{
    joined("Malformed model name: '", name).concat("'.")
}

impl DownloadError {
    /// What the user is told of a refused pull of `name`.
    pub fn message(&self, name: &str) -> (r: String)
        ensures
            r@ == match self {
                DownloadError::MalformedModelName => "Malformed model name: '"@ + name@ + "'."@,
                DownloadError::AlreadyInFlight(key) => "Model '"@ + key@
                    + "' is already being downloaded."@,
            },
    {
        match self {
            DownloadError::MalformedModelName => malformed_name(name),
            DownloadError::AlreadyInFlight(key) => already_downloading(key.as_str()),
        }
    }
}

} // verus!
