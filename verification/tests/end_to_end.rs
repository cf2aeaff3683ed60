use ip_locator::{parse_dump, string_to_ip, RangeStore};

/// Parse a dump, load the store from it, query it: the whole pipeline.
#[test]
fn one_row_dump_serves_lookups() {
    let mut text = String::new();
    for _ in 0..42 {
        text.push_str("-- boilerplate\n");
    }
    text.push_str("INSERT INTO ips VALUES (1, 0, '1.0.0.0', '1.0.0.255', 'AU', 'Vic', 'Melbourne');");

    let records = parse_dump(&text).unwrap();
    assert_eq!(records.len(), 1);

    let mut store = RangeStore::new();
    store.reload(records);

    assert_eq!(string_to_ip("1.0.0.1".to_string()), Ok(16777217));
    let hit = store.find(16777217).unwrap();
    assert_eq!(
        (hit.country.as_str(), hit.region.as_str(), hit.city.as_str()),
        ("AU", "Vic", "Melbourne")
    );

    assert_eq!(string_to_ip("1.0.1.0".to_string()), Ok(16777472));
    assert!(store.find(16777472).is_none());
}
