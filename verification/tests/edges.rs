//! Exact values of the library's functions on chosen inputs, each error it
//! reports, and the laws on concrete values.

use archive_sql::digest::{checksum_text, sha256};
use archive_sql::metadata::{decode_metadata, encode_metadata};
use archive_sql::statement::{Statement, HEAD};
use archive_sql::store::{sanitise, settle, uri_path, ArchiveItem, ArchiveReceipt, SqlScriptArchive};

fn pairs(list: &[(&str, &str)]) -> Vec<(String, String)> {
    list.iter().map(|(k, v)| (k.to_string(), v.to_string())).collect()
}

fn row(identifier: &str) -> Statement {
    Statement {
        data_type: "json".to_string(),
        identifier: identifier.to_string(),
        bytes: vec![0x7b, 0x7d],
        metadata: String::new(),
        archived_at: "2026-09-09T00:00:00Z".to_string(),
    }
}

#[test]
fn sha256_gives_the_known_digests() {
    assert_eq!(
        sha256(b"abc"),
        "ba7816bf8f01cfea414140de5dae2223b00361a396177a9cb410ff61f20015ad"
    );
    assert_eq!(
        sha256(b""),
        "e3b0c44298fc1c149afbf4c8996fb92427ae41e4649b934ca495991b7852b855"
    );
}

#[test]
fn a_checksum_is_two_lowercase_digits_per_byte() {
    assert_eq!(checksum_text(&[0x00, 0xab, 0x7f, 0xff]), "00ab7fff");
    assert_eq!(checksum_text(&[]), "");
    assert_eq!(sha256(b"any bytes at all").len(), 64);
}

#[test]
fn sanitise_turns_other_characters_into_underscores() {
    assert_eq!(sanitise("hl7/v2"), "hl7_v2");
    assert_eq!(sanitise("a-Z_9 é"), "a-Z_9__");
    assert_eq!(sanitise(""), "");
    let once = sanitise("../etc/passwd");
    assert_eq!(once, "___etc_passwd");
    assert_eq!(sanitise(&once), once);
}

#[test]
fn uri_path_uses_forward_slashes_and_a_leading_slash() {
    assert_eq!(uri_path("C:\\data\\archive"), "/C:/data/archive");
    assert_eq!(uri_path("/tmp/a"), "/tmp/a");
    assert_eq!(uri_path("relative"), "/relative");
    assert_eq!(uri_path(""), "/");
}

#[test]
fn the_prefix_is_the_root_as_a_uri() {
    assert_eq!(SqlScriptArchive::new("/tmp/a").prefix(), "sql:///tmp/a/");
    assert_eq!(SqlScriptArchive::new("rel").prefix(), "sql:///rel/");
    assert_eq!(SqlScriptArchive::new("/tmp/a").root(), "/tmp/a");
}

#[test]
fn a_receipt_names_the_script_and_the_identifier() {
    let store = SqlScriptArchive::new("/tmp/a");
    let (script, id) = store.target_of("sql:///tmp/a/json.sql#x#y").expect("target");
    assert_eq!(script, "json.sql");
    assert_eq!(id, "x#y");
    let (script, id) = store.target_of("sql:///tmp/a/hl7_v2.sql#").expect("target");
    assert_eq!(script, "hl7_v2.sql");
    assert_eq!(id, "");
    let slashed = SqlScriptArchive::new("/tmp/a/");
    let (script, _) = slashed.target_of("sql:///tmp/a//json.sql#x").expect("target");
    assert_eq!(script, "json.sql");
}

#[test]
fn a_receipt_of_another_root_is_refused() {
    let store = SqlScriptArchive::new("/tmp/a");
    let refused = store.target_of("sql:///tmp/b/json.sql#x").expect_err("another root");
    assert_eq!(
        refused.message,
        "sql:///tmp/b/json.sql#x is not a receipt of the archive at /tmp/a"
    );
}

#[test]
fn a_receipt_without_a_script_and_an_identifier_is_refused() {
    let store = SqlScriptArchive::new("/tmp/a");
    for location in [
        "sql:///tmp/a/json.sql",
        "sql:///tmp/a/json.txt#x",
        "sql:///tmp/a/.sql#x",
        "sql:///tmp/a/a.b.sql#x",
        "sql:///tmp/a/../x.sql#x",
    ] {
        let refused = store.target_of(location).expect_err("no script");
        assert_eq!(
            refused.message,
            format!("{location} does not name a script and an identifier")
        );
    }
}

#[test]
fn metadata_is_joined_by_the_separators() {
    let encoded = encode_metadata(&pairs(&[("a", "1"), ("b", "2")]));
    assert_eq!(encoded, "a\u{1f}1\u{1e}b\u{1f}2");
    assert_eq!(encode_metadata(&[]), "");
    assert_eq!(encode_metadata(&pairs(&[("", "")])), "\u{1f}");
}

#[test]
fn metadata_decodes_what_it_can() {
    assert_eq!(decode_metadata(""), Vec::<(String, String)>::new());
    assert_eq!(decode_metadata("no value"), Vec::<(String, String)>::new());
    assert_eq!(
        decode_metadata("a\u{1f}b\u{1f}c"),
        pairs(&[("a", "b\u{1f}c")])
    );
    assert_eq!(
        decode_metadata("a\u{1f}1\u{1e}junk\u{1e}\u{1f}"),
        pairs(&[("a", "1"), ("", "")])
    );
}

#[test]
fn metadata_comes_back_from_its_text() {
    let original = pairs(&[("source", "playground"), ("", "x\u{1f}y"), ("ö", "")]);
    assert_eq!(decode_metadata(&encode_metadata(&original)), original);
}

#[test]
fn a_missing_separator_is_refused_with_its_column() {
    let refused = Statement::parse(&format!("{HEAD}'json';")).expect_err("no separator");
    assert_eq!(refused, "expected \", \" at column 88");
}

#[test]
fn a_missing_string_literal_is_refused_with_its_column() {
    let refused = Statement::parse(&format!("{HEAD}json")).expect_err("no literal");
    assert_eq!(refused, "expected a string literal at column 82");
}

#[test]
fn each_hex_fault_is_refused() {
    let odd = format!("{HEAD}'json', 'id', X'abc', '', '');");
    assert_eq!(
        Statement::parse(&odd).expect_err("odd"),
        "a hex literal holds an odd count of hex digits"
    );
    let open = format!("{HEAD}'json', 'id', X'ab");
    assert_eq!(
        Statement::parse(&open).expect_err("open"),
        "a hex literal is not terminated"
    );
    let bad = format!("{HEAD}'json', 'id', X'zz', '', '');");
    assert_eq!(
        Statement::parse(&bad).expect_err("bad"),
        "a hex literal holds a character that is not a hex digit"
    );
    let no_x = format!("{HEAD}'json', 'id', '', '', '');");
    assert_eq!(
        Statement::parse(&no_x).expect_err("no X"),
        "expected \"X'\" at column 96"
    );
}

#[test]
fn text_after_the_statement_is_refused() {
    let line = format!("{} --", row("a").to_sql());
    assert_eq!(
        Statement::parse(&line).expect_err("trailing"),
        "text after the statement: \" --\""
    );
}

#[test]
fn text_after_the_statement_is_named_without_its_trailing_white_space() {
    let line = format!("{}x \t", row("a").to_sql());
    assert_eq!(
        Statement::parse(&line).expect_err("trailing"),
        "text after the statement: \"x\""
    );
    let spaced = format!("  {} \u{a0}", row("a").to_sql());
    assert_eq!(Statement::parse(&spaced).expect("white space only"), row("a"));
}

#[test]
fn uppercase_hex_and_surrounding_white_space_are_read() {
    let line = format!(" \t{HEAD}'json', 'a', X'7B7d', '', '2026-09-09T00:00:00Z');\u{3000}");
    assert_eq!(Statement::parse(&line).expect("parse"), row("a"));
}

#[test]
fn a_cut_statement_is_refused() {
    let sql = row("it's").to_sql();
    for (at, _) in sql.char_indices() {
        assert!(Statement::parse(&sql[..at]).is_err(), "{at}");
    }
    assert!(Statement::parse(&sql).is_ok());
}

fn item(id: &str) -> ArchiveItem {
    ArchiveItem {
        data_type: "hl7/v2".to_string(),
        identifier: id.to_string(),
        bytes: vec![1, 2, 3],
        metadata: pairs(&[("k", "v")]),
    }
}

#[test]
fn archiving_plans_a_line_and_a_receipt() {
    let store = SqlScriptArchive::new("/var/archive");
    let plan = store.plan_archive(&item("n#1"), "2026-09-09T00:00:00Z");
    assert_eq!(plan.script, "hl7_v2.sql");
    assert_eq!(
        plan.line,
        format!("{HEAD}'hl7/v2', 'n#1', X'010203', 'k\u{1f}v', '2026-09-09T00:00:00Z');")
    );
    assert_eq!(plan.receipt.location, "sql:///var/archive/hl7_v2.sql#n#1");
    assert_eq!(plan.receipt.checksum, Some(sha256(&[1, 2, 3])));
}

#[test]
fn an_item_restores_between_other_lines() {
    let store = SqlScriptArchive::new("/var/archive");
    let before = store.plan_archive(&item("other"), "t0").line;
    let plan = store.plan_archive(&item("n#1"), "t1");
    let after = store.plan_archive(&item("later"), "t2").line;
    let script = format!("{before}\r\n\n   \n{}\n{after}\n", plan.line);
    assert_eq!(
        store.restore_from_script(&plan.receipt, "/var/archive/hl7_v2.sql", &script).expect("restore"),
        item("n#1")
    );
}

#[test]
fn a_line_that_is_no_statement_is_refused_with_its_number() {
    let store = SqlScriptArchive::new("/var/archive");
    let plan = store.plan_archive(&item("n#1"), "t1");
    let script = format!("{}\n\ngarbage\n", plan.line);
    let refused = store
        .restore_from_script(&plan.receipt, "/var/archive/hl7_v2.sql", &script)
        .expect_err("garbage");
    assert_eq!(
        refused.message,
        "/var/archive/hl7_v2.sql:3: not an INSERT INTO archive statement"
    );
}

#[test]
fn a_receipt_without_checksum_restores() {
    let store = SqlScriptArchive::new("/var/archive");
    let plan = store.plan_archive(&item("n#1"), "t1");
    let receipt = ArchiveReceipt {
        location: plan.receipt.location.clone(),
        checksum: None,
    };
    let script = format!("{}\n", plan.line);
    assert_eq!(
        store.restore_from_script(&receipt, "/var/archive/hl7_v2.sql", &script).expect("restore"),
        item("n#1")
    );
}

#[test]
fn an_identifier_not_in_the_script_is_refused() {
    let store = SqlScriptArchive::new("/var/archive");
    let plan = store.plan_archive(&item("n#1"), "t1");
    let receipt = ArchiveReceipt {
        location: "sql:///var/archive/hl7_v2.sql#n#2".to_string(),
        checksum: None,
    };
    let refused = store
        .restore_from_script(&receipt, "/var/archive/hl7_v2.sql", &plan.line)
        .expect_err("absent");
    assert_eq!(
        refused.message,
        "no statement for n#2 in sql:///var/archive/hl7_v2.sql#n#2"
    );
}

#[test]
fn settling_holds_the_item_against_the_checksum() {
    let receipt = ArchiveReceipt {
        location: "sql:///r/json.sql#a".to_string(),
        checksum: Some("aa".to_string()),
    };
    let refused = settle(&receipt, row("a"), "bb").expect_err("mismatch");
    assert_eq!(
        refused.message,
        "checksum mismatch at sql:///r/json.sql#a: the receipt says aa, the script bb"
    );
    let kept = settle(&receipt, row("a"), "aa").expect("match");
    assert_eq!(kept.identifier, "a");
    assert_eq!(kept.bytes, vec![0x7b, 0x7d]);
    assert_eq!(kept.metadata, Vec::<(String, String)>::new());
}
