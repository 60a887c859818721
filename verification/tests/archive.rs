//! The archive's round trips, with each script held in memory: the lines that
//! archiving appends, and the text that restoring reads.

use std::path::Path;

use archive_sql::digest::sha256;
use archive_sql::store::{ArchiveError, ArchiveItem, ArchiveReceipt, SqlScriptArchive};

const NOW: &str = "2026-09-09T00:00:00Z";

struct Scripts {
    store: SqlScriptArchive,
    files: Vec<(String, String)>,
}

impl Scripts {
    fn new(name: &str) -> Scripts {
        let root = format!("/tmp/xmip-sql-{name}");
        Scripts {
            store: SqlScriptArchive::new(&root),
            files: Vec::new(),
        }
    }

    fn read(&self, path: &str) -> Option<&String> {
        self.files.iter().find(|(p, _)| p == path).map(|(_, text)| text)
    }

    fn path_of(&self, script: &str) -> String {
        Path::new(self.store.root()).join(script).display().to_string()
    }

    fn archive(&mut self, item: ArchiveItem) -> ArchiveReceipt {
        let plan = self.store.plan_archive(&item, NOW);
        let path = self.path_of(&plan.script);
        let line = format!("{}\n", plan.line);
        match self.files.iter_mut().find(|(p, _)| *p == path) {
            Some((_, text)) => text.push_str(&line),
            None => self.files.push((path, line)),
        }
        plan.receipt
    }

    fn restore(&self, receipt: &ArchiveReceipt) -> Result<ArchiveItem, ArchiveError> {
        let (script, _) = self.store.target_of(&receipt.location)?;
        let path = self.path_of(&script);
        match self.read(&path) {
            Some(text) => self.store.restore_from_script(receipt, &path, text),
            None => Err(ArchiveError {
                message: format!("{path}: No such file or directory (os error 2)"),
            }),
        }
    }

    fn script(&self, name: &str) -> Option<&String> {
        self.read(&self.path_of(name))
    }
}

fn item(id: &str) -> ArchiveItem {
    ArchiveItem {
        data_type: "json".to_string(),
        identifier: id.to_string(),
        bytes: b"{\"kept\":true}".to_vec(),
        metadata: vec![("source".to_string(), "playground".to_string())],
    }
}

#[test]
fn an_archived_item_restores_from_its_statement() {
    let mut scripts = Scripts::new("roundtrip");
    let original = item("json#1");
    let receipt = scripts.archive(original.clone());
    assert!(receipt.location.starts_with("sql:///"), "{}", receipt.location);
    assert!(receipt.location.ends_with("/json.sql#json#1"), "{}", receipt.location);
    assert_eq!(receipt.checksum, Some(sha256(&original.bytes)));
    let restored = scripts.restore(&receipt).expect("restore");
    assert_eq!(restored, original, "the script gives the item back");
}

#[test]
fn two_items_share_one_script_and_each_restores() {
    let mut scripts = Scripts::new("two");
    let first = scripts.archive(item("json#1"));
    let second = scripts.archive(item("json#2"));
    let script = scripts.script("json.sql").expect("the script");
    assert_eq!(script.lines().count(), 2, "{script}");
    assert_eq!(scripts.restore(&first).expect("restore").identifier, "json#1");
    assert_eq!(scripts.restore(&second).expect("restore").identifier, "json#2");
}

#[test]
fn an_identifier_with_a_quote_round_trips() {
    let mut scripts = Scripts::new("quote");
    let original = item("it's 'quoted'");
    let receipt = scripts.archive(original.clone());
    let script = scripts.script("json.sql").expect("the script");
    assert!(script.contains("'it''s ''quoted'''"), "{script}");
    assert_eq!(scripts.restore(&receipt).expect("restore"), original);
}

#[test]
fn the_last_statement_for_an_identifier_wins() {
    let mut scripts = Scripts::new("last");
    scripts.archive(item("json#1"));
    let later = ArchiveItem {
        bytes: b"{\"kept\":\"again\"}".to_vec(),
        ..item("json#1")
    };
    let receipt = scripts.archive(later.clone());
    assert_eq!(scripts.restore(&receipt).expect("restore"), later);
}

#[test]
fn an_unknown_identifier_is_an_error() {
    let mut scripts = Scripts::new("unknown");
    scripts.archive(item("json#1"));
    let receipt = ArchiveReceipt {
        location: format!("{}json.sql#never", scripts.store.prefix()),
        checksum: None,
    };
    let refused = scripts.restore(&receipt).expect_err("no such statement");
    assert!(refused.message.contains("never"), "{}", refused.message);
    assert!(refused.message.contains(&receipt.location), "{}", refused.message);
}

#[test]
fn a_missing_script_is_an_error_naming_the_path() {
    let scripts = Scripts::new("missing");
    let receipt = ArchiveReceipt {
        location: format!("{}csv.sql#x", scripts.store.prefix()),
        checksum: None,
    };
    let refused = scripts.restore(&receipt).expect_err("no script");
    let path = format!("{}/csv.sql", scripts.store.root());
    assert!(refused.message.contains(&path), "{}", refused.message);
}

#[test]
fn a_mismatched_checksum_in_the_receipt_is_refused() {
    let mut scripts = Scripts::new("mismatch");
    let mut receipt = scripts.archive(item("json#1"));
    receipt.checksum = Some("0".repeat(64));
    let refused = scripts.restore(&receipt).expect_err("the receipt lies");
    assert!(refused.message.contains("checksum mismatch"), "{}", refused.message);
}

#[test]
fn the_script_is_loadable_text() {
    let mut scripts = Scripts::new("loadable");
    scripts.archive(item("json#1"));
    scripts.archive(item("json#2"));
    let mut csv = item("csv-1");
    csv.data_type = "csv".to_string();
    scripts.archive(csv);
    let script = scripts.script("json.sql").expect("the script");
    for line in script.lines() {
        assert!(line.starts_with("INSERT INTO archive ("), "{line}");
        assert!(line.ends_with(");"), "{line}");
    }
    assert!(scripts.script("csv.sql").is_some(), "one script per data type");
}
