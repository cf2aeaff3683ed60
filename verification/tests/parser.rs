use ip_locator::{parse_dump, DumpError};

/// A dump: the fixed boilerplate preamble, then the given statement text.
fn dump(body: &str) -> String {
    let mut text = String::new();
    for k in 0..42 {
        text.push_str(&format!("-- preamble line {}\n", k));
    }
    text.push_str(body);
    text
}

#[test]
fn parses_one_row() {
    let text = dump("INSERT INTO ips VALUES (7,0,'1.2.3.4','1.2.3.9','US','CA','Fresno');");
    let recs = parse_dump(&text).unwrap();
    assert_eq!(recs.len(), 1);
    assert_eq!(recs[0].id, 7);
    assert_eq!(recs[0].range_start, (1 << 24) | (2 << 16) | (3 << 8) | 4);
    assert_eq!(recs[0].range_end, (1 << 24) | (2 << 16) | (3 << 8) | 9);
    assert_eq!(recs[0].country, "US");
    assert_eq!(recs[0].region, "CA");
    assert_eq!(recs[0].city, "Fresno");
}

#[test]
fn tolerates_blanks_between_tokens() {
    let text = dump("INSERT INTO ips VALUES (1, 0, '1.0.0.0', '1.0.0.255', 'AU', 'Vic', 'Melbourne');");
    let recs = parse_dump(&text).unwrap();
    assert_eq!(recs.len(), 1);
    assert_eq!(recs[0].country, "AU");
    assert_eq!(recs[0].city, "Melbourne");
}

#[test]
fn joins_rows_wrapped_across_lines() {
    let text = dump("INSERT INTO ips VALUES (1,0,'1.0.\n0.0','1.0.0.255','AU','Vic','Melb\nourne');");
    let recs = parse_dump(&text).unwrap();
    assert_eq!(recs.len(), 1);
    assert_eq!(recs[0].range_start, 1 << 24);
    assert_eq!(recs[0].city, "Melbourne");
}

#[test]
fn parses_several_rows_and_statements() {
    let mut body = String::new();
    body.push_str("INSERT INTO ips VALUES (1,0,'0.0.0.1','0.0.0.5','AA','a','x'),(2,0,'0.0.1.0','0.0.1.9','BB','b','y');\n");
    body.push_str("INSERT INTO ips VALUES (3,0,'9.0.0.0','9.0.0.9','CC','c','z');");
    let text = dump(&body);
    let recs = parse_dump(&text).unwrap();
    assert_eq!(recs.len(), 3);
    assert_eq!(recs[0].id, 1);
    assert_eq!(recs[1].id, 2);
    assert_eq!(recs[2].id, 3);
    assert_eq!(recs[2].country, "CC");
}

#[test]
fn discards_rows_flagged_as_ipv6() {
    let mut body = String::new();
    body.push_str("INSERT INTO ips VALUES (1,1,'1.0.0.0','1.0.0.255','AU','Vic','Melbourne'),");
    body.push_str("(2,0,'2.0.0.0','2.0.0.255','NZ','Wgn','Wellington');");
    let text = dump(&body);
    let recs = parse_dump(&text).unwrap();
    assert_eq!(recs.len(), 1);
    assert_eq!(recs[0].id, 2);
    assert_eq!(recs[0].country, "NZ");
}

#[test]
fn discards_ipv6_rows_even_alone() {
    let text = dump("INSERT INTO ips VALUES (1,1,'1.0.0.0','1.0.0.255','AU','Vic','Melbourne');");
    let recs = parse_dump(&text).unwrap();
    assert_eq!(recs.len(), 0);
}

#[test]
fn keeps_commas_and_quotesless_text_inside_quoted_fields() {
    let text = dump("INSERT INTO ips VALUES (5,0,'1.0.0.0','1.0.0.9','US','DC','Washington, D.C.');");
    let recs = parse_dump(&text).unwrap();
    assert_eq!(recs.len(), 1);
    assert_eq!(recs[0].city, "Washington, D.C.");
}

#[test]
fn empty_labels_are_kept_verbatim() {
    let text = dump("INSERT INTO ips VALUES (5,0,'1.0.0.0','1.0.0.9','US','','');");
    let recs = parse_dump(&text).unwrap();
    assert_eq!(recs[0].region, "");
    assert_eq!(recs[0].city, "");
}

#[test]
fn rejects_row_with_unordered_range() {
    let text = dump("INSERT INTO ips VALUES (1,0,'1.0.0.255','1.0.0.0','AU','Vic','Melbourne');");
    assert_eq!(parse_dump(&text), Err(DumpError::MalformedRow));
}

#[test]
fn rejects_row_with_bad_address_field() {
    let text = dump("INSERT INTO ips VALUES (1,0,'1.0.0.999','1.0.1.0','AU','Vic','Melbourne');");
    assert_eq!(parse_dump(&text), Err(DumpError::MalformedRow));
}

#[test]
fn rejects_row_with_oversized_identifier() {
    let text = dump("INSERT INTO ips VALUES (4294967296,0,'1.0.0.0','1.0.0.9','AU','Vic','M');");
    assert_eq!(parse_dump(&text), Err(DumpError::MalformedRow));
}

#[test]
fn rejects_row_with_missing_field() {
    let text = dump("INSERT INTO ips VALUES (1,0,'1.0.0.0','1.0.0.9','AU','Vic');");
    assert_eq!(parse_dump(&text), Err(DumpError::MalformedRow));
}

#[test]
fn no_statement_yields_no_rows() {
    let text = dump("-- nothing to insert here\n");
    let recs = parse_dump(&text).unwrap();
    assert_eq!(recs.len(), 0);
}

#[test]
fn preamble_is_skipped_whatever_it_holds() {
    // a statement inside the preamble must not be parsed
    let mut text = String::new();
    text.push_str("INSERT INTO ips VALUES (9,0,'1.0.0.0','1.0.0.9','XX','x','x');\n");
    for _ in 0..41 {
        text.push_str("-- filler\n");
    }
    text.push_str("INSERT INTO ips VALUES (1,0,'2.0.0.0','2.0.0.9','YY','y','y');");
    let recs = parse_dump(&text).unwrap();
    assert_eq!(recs.len(), 1);
    assert_eq!(recs[0].country, "YY");
}
