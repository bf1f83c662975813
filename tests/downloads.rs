use spit::downloads::{is_malformed_name, normalize, DownloadError, DownloadSet};
use spit::models::ModelInfo;

#[test]
fn normalize_adds_default_tag() {
    assert_eq!(normalize("llama3"), "llama3:latest");
    assert_eq!(normalize("llama3:8b"), "llama3:8b");
    assert_eq!(normalize("llama3:latest"), "llama3:latest");
}

#[test]
fn malformed_names() {
    assert!(is_malformed_name(""));
    assert!(is_malformed_name(":latest"));
    assert!(is_malformed_name("llama3:"));
    assert!(!is_malformed_name("llama3"));
    assert!(!is_malformed_name("a:b"));
}

#[test]
fn begin_then_tagged_name_is_refused() {
    let mut d = DownloadSet::new();
    assert_eq!(d.begin("llama3"), Ok("llama3:latest".to_string()));
    assert_eq!(
        d.begin("llama3:latest"),
        Err(DownloadError::AlreadyInFlight("llama3:latest".to_string()))
    );
    assert_eq!(d.pending_as_models().len(), 1);
}

#[test]
fn malformed_begin_changes_nothing() {
    let mut d = DownloadSet::new();
    assert_eq!(d.begin(""), Err(DownloadError::MalformedModelName));
    assert_eq!(d.begin("x:"), Err(DownloadError::MalformedModelName));
    assert!(d.pending_as_models().is_empty());
}

#[test]
fn many_begins_of_one_model_admit_one() {
    let mut d = DownloadSet::new();
    let names = ["phi", "phi:latest", "phi", "phi:latest", "phi"];
    let admitted = names.iter().filter(|n| d.begin(n).is_ok()).count();
    assert_eq!(admitted, 1);
    assert_eq!(d.pending_as_models().len(), 1);
}

#[test]
fn end_makes_name_eligible_again() {
    let mut d = DownloadSet::new();
    assert!(d.begin("qwen").is_ok());
    assert!(d.begin("gemma:2b").is_ok());
    assert!(d.is_pending("qwen:latest"));
    d.end("qwen");
    assert!(!d.is_pending("qwen"));
    let pending = d.pending_as_models();
    assert_eq!(pending.len(), 1);
    assert_eq!(pending[0].name, "gemma:2b");
    assert!(d.begin("qwen:latest").is_ok());
}

#[test]
fn pending_entries_are_temporary() {
    let mut d = DownloadSet::new();
    d.begin("llava").unwrap();
    let p = d.pending_as_models();
    assert_eq!(
        p,
        vec![ModelInfo {
            name: "llava:latest".to_string(),
            size: 0,
            modified_at: "N/A".to_string(),
            temporary: true,
        }]
    );
}

#[test]
fn merge_puts_server_models_first() {
    let mut d = DownloadSet::new();
    d.begin("b").unwrap();
    let server = vec![ModelInfo::on_server("a:latest".to_string(), 42, "2024-01-01".to_string())];
    let merged = d.merge(server);
    assert_eq!(merged.len(), 2);
    assert_eq!(merged[0].name, "a:latest");
    assert_eq!(merged[0].size, 42);
    assert!(!merged[0].temporary);
    assert_eq!(merged[1].name, "b:latest");
    assert!(merged[1].temporary);
}

#[test]
fn listing_twice_is_identical() {
    let mut d = DownloadSet::new();
    d.begin("m1").unwrap();
    let server = vec![ModelInfo::on_server("x:1".to_string(), 7, "t".to_string())];
    let first = d.merge(server.clone());
    let second = d.merge(server);
    assert_eq!(first, second);
}

#[test]
fn duplicate_copies_model_info() {
    let m = ModelInfo::on_server("x".to_string(), 3, "now".to_string());
    assert_eq!(m.duplicate(), m);
}
