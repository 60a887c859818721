use archive_sql::statement::{Statement, HEAD};

fn statement() -> Statement {
    Statement {
        data_type: "json".to_string(),
        identifier: "it's #1".to_string(),
        bytes: b"{\"kept\":true}".to_vec(),
        metadata: "source\u{1f}playground".to_string(),
        archived_at: "2026-09-09T00:00:00Z".to_string(),
    }
}

#[test]
fn the_statement_is_one_line_of_iso_sql() {
    let sql = statement().to_sql();
    assert_eq!(
        sql,
        "INSERT INTO archive (data_type, identifier, bytes, metadata, archived_at) \
         VALUES ('json', 'it''s #1', X'7b226b657074223a747275657d', \
         'source\u{1f}playground', '2026-09-09T00:00:00Z');"
    );
    assert!(!sql.contains('\n'));
}

#[test]
fn the_statement_parses_back_to_itself() {
    let sql = statement().to_sql();
    assert_eq!(Statement::parse(&sql).expect("parse"), statement());
}

#[test]
fn empty_bytes_and_empty_metadata_are_kept() {
    let empty = Statement {
        bytes: Vec::new(),
        metadata: String::new(),
        ..statement()
    };
    let sql = empty.to_sql();
    assert!(sql.contains("X'', ''"), "{sql}");
    assert_eq!(Statement::parse(&sql).expect("parse"), empty);
}

#[test]
fn a_line_that_is_not_an_insert_is_refused() {
    let refused = Statement::parse("SELECT 1;").expect_err("not an insert");
    assert!(refused.contains("INSERT"), "{refused}");
}

#[test]
fn an_unterminated_string_is_refused() {
    let line = format!("{HEAD}'json', 'open");
    let refused = Statement::parse(&line).expect_err("unterminated");
    assert!(refused.contains("not terminated"), "{refused}");
}

#[test]
fn multibyte_text_parses_back_and_a_cut_is_refused_without_panic() {
    let wide = Statement {
        identifier: "Zoë's 名前\u{a0}\u{1f600}".to_string(),
        metadata: "größe\u{3000}é".to_string(),
        ..statement()
    };
    let sql = wide.to_sql();
    assert_eq!(Statement::parse(&sql).expect("parse"), wide);
    for cut in (0..sql.len()).filter(|&at| sql.is_char_boundary(at)) {
        assert!(Statement::parse(&sql[..cut]).is_err(), "{cut}");
    }
    let line = format!("{HEAD}'json',\u{a0}'id', X'', '', '');");
    assert!(Statement::parse(&line).is_err());
    let line = format!("{HEAD}'json', 'id', X'é', '', '');");
    assert!(Statement::parse(&line).is_err());
}

#[test]
fn bad_hex_is_refused() {
    let line = format!("{HEAD}'json', 'id', X'zz', '', '');");
    let refused = Statement::parse(&line).expect_err("bad hex");
    assert!(refused.contains("hex"), "{refused}");
}
