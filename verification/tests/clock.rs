use archive_sql::clock::utc_timestamp;

#[test]
fn timestamps_are_rfc3339_in_utc() {
    assert_eq!(utc_timestamp(0), "1970-01-01T00:00:00Z");
    assert_eq!(utc_timestamp(86399), "1970-01-01T23:59:59Z");
    assert_eq!(utc_timestamp(951782400), "2000-02-29T00:00:00Z");
    assert_eq!(utc_timestamp(1725029869), "2024-08-30T14:57:49Z");
    assert_eq!(utc_timestamp(1788912000), "2026-09-09T00:00:00Z");
    assert_eq!(utc_timestamp(253402300799), "9999-12-31T23:59:59Z");
    assert_eq!(utc_timestamp(253402300800), "10000-01-01T00:00:00Z");
}
