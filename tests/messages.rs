use spit::downloads::DownloadError;
use spit::messages::{
    add_failed, already_downloading, delete_failed, deleted, pull_failed, remote_error,
};

#[test]
fn message_texts() {
    assert_eq!(remote_error("refused"), "Ollama error: refused");
    assert_eq!(pull_failed("eof"), "Failed: eof");
    assert_eq!(add_failed("eof"), "Failed to add model: eof");
    assert_eq!(delete_failed("gone"), "Failed to delete model: gone");
    assert_eq!(deleted("llama3"), "Model 'llama3' deleted.");
    assert_eq!(
        already_downloading("llama3:latest"),
        "Model 'llama3:latest' is already being downloaded."
    );
}

#[test]
fn download_error_messages() {
    let e = DownloadError::AlreadyInFlight("phi:latest".to_string());
    assert_eq!(e.message("phi"), "Model 'phi:latest' is already being downloaded.");
    assert_eq!(
        DownloadError::MalformedModelName.message("x:"),
        "Malformed model name: 'x:'."
    );
}
