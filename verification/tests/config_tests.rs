use recordstore::config::{Config, ConfigError, ConfigParseError};
use recordstore::store::{encoded_entry, read_all};

#[test]
fn initial_text_is_empty_object() {
    assert_eq!(Config::initial_text(), "{}");
}

#[test]
fn parse_empty_object_has_no_database() {
    let cfg = Config::parse("{}").unwrap();
    assert_eq!(cfg.database_path(), Err(ConfigError::MissingDatabase));
}

#[test]
fn parse_rejects_invalid_json() {
    assert!(matches!(Config::parse("not json"), Err(ConfigParseError::InvalidJson)));
}

#[test]
fn parse_rejects_non_object() {
    assert!(matches!(Config::parse("[1, 2]"), Err(ConfigParseError::NotAnObject)));
}

#[test]
fn ensure_database_sets_default_once() {
    let mut cfg = Config::parse("{}").unwrap();
    let changed = cfg.ensure_database("database.fasta");
    assert!(changed);
    assert_eq!(cfg.database_path().unwrap(), "database.fasta");
}

#[test]
fn ensure_database_twice_changes_nothing() {
    // Idempotent lazy initialization: the second step reports no change,
    // so no file would be created again, and the path stays the same.
    let mut cfg = Config::parse("{}").unwrap();
    assert!(cfg.ensure_database("database.fasta"));
    assert!(!cfg.ensure_database("database.fasta"));
    assert_eq!(cfg.database_path().unwrap(), "database.fasta");
}

#[test]
fn ensure_database_keeps_existing_path() {
    let mut cfg = Config::parse("{\"database\": \"mine.log\"}").unwrap();
    assert!(!cfg.ensure_database("database.fasta"));
    assert_eq!(cfg.database_path().unwrap(), "mine.log");
}

#[test]
fn null_database_counts_as_missing() {
    let mut cfg = Config::parse("{\"database\": null}").unwrap();
    assert_eq!(cfg.database_path(), Err(ConfigError::MissingDatabase));
    assert!(cfg.ensure_database("database.fasta"));
    assert_eq!(cfg.database_path().unwrap(), "database.fasta");
}

#[test]
fn non_text_database_is_reported() {
    let mut cfg = Config::parse("{\"database\": 5}").unwrap();
    assert_eq!(cfg.database_path(), Err(ConfigError::NotText));
    // Present though not text: initialization must not overwrite it.
    assert!(!cfg.ensure_database("database.fasta"));
    assert_eq!(cfg.database_path(), Err(ConfigError::NotText));
}

#[test]
fn render_then_parse_keeps_database() {
    let mut cfg = Config::parse("{}").unwrap();
    cfg.ensure_database("database.fasta");
    let text = cfg.render();
    let reread = Config::parse(&text).unwrap();
    assert_eq!(reread.database_path().unwrap(), "database.fasta");
}

#[test]
fn render_preserves_unknown_members() {
    let cfg = Config::parse("{\"database\": \"x.log\", \"other\": 42}").unwrap();
    let text = cfg.render();
    assert!(text.contains("other"));
    assert!(text.contains("42"));
}

#[test]
fn fresh_environment_first_add() {
    // A fresh store: no configuration yet. The first add creates the
    // configuration with a database key and the log holds one record.
    let initial = Config::initial_text();
    let mut cfg = Config::parse(&initial).unwrap();
    let created = cfg.ensure_database("database.fasta");
    assert!(created);
    let persisted = cfg.render();
    let cfg_again = Config::parse(&persisted).unwrap();
    assert_eq!(cfg_again.database_path().unwrap(), "database.fasta");

    let log = encoded_entry("x", "y");
    let records = read_all(&log).unwrap();
    assert_eq!(records.len(), 1);
    assert_eq!(records[0].identifier, "x");
    assert_eq!(records[0].value, "y");
}
