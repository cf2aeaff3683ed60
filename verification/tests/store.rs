use ip_locator::{choose_plan, summarize, QueryPlan, RangeRecord, RangeStore};

fn rec(id: u32, start: u32, end: u32, country: &str, region: &str, city: &str) -> RangeRecord {
    RangeRecord {
        id,
        range_start: start,
        range_end: end,
        country: country.to_string(),
        region: region.to_string(),
        city: city.to_string(),
    }
}

#[test]
fn empty_store_finds_nothing() {
    let store = RangeStore::new();
    assert_eq!(store.len(), 0);
    assert!(store.find(0).is_none());
    assert!(store.find(u32::MAX).is_none());
}

#[test]
fn finds_containing_range_and_boundaries() {
    let mut store = RangeStore::new();
    store.reload(vec![
        rec(1, 100, 200, "AU", "Vic", "Melbourne"),
        rec(2, 300, 400, "NZ", "Wgn", "Wellington"),
    ]);
    assert_eq!(store.len(), 2);
    for a in [100, 150, 200] {
        let hit = store.find(a).unwrap();
        assert_eq!(hit.id, 1);
        assert_eq!((hit.range_start, hit.range_end), (100, 200));
    }
    assert_eq!(store.find(300).unwrap().country, "NZ");
    assert_eq!(store.find(400).unwrap().city, "Wellington");
}

#[test]
fn misses_in_gaps_and_outside() {
    let mut store = RangeStore::new();
    store.reload(vec![rec(1, 100, 200, "AU", "Vic", "M"), rec(2, 300, 400, "NZ", "W", "W")]);
    assert!(store.find(99).is_none());
    assert!(store.find(201).is_none());
    assert!(store.find(250).is_none());
    assert!(store.find(299).is_none());
    assert!(store.find(401).is_none());
}

#[test]
fn returns_first_match_in_row_order() {
    let mut store = RangeStore::new();
    // two rows with the same boundary pair: the earlier row wins
    store.reload(vec![rec(7, 10, 20, "AA", "a", "x"), rec(8, 10, 20, "BB", "b", "y")]);
    assert_eq!(store.find(15).unwrap().id, 7);
    assert_eq!(store.find_indexed(15).unwrap().id, 7);
    assert_eq!(store.find_scan(15).unwrap().id, 7);
}

#[test]
fn both_plans_agree_on_overlapping_rows() {
    let mut store = RangeStore::new();
    store.reload(vec![rec(1, 10, 20, "AA", "a", "x"), rec(2, 5, 30, "BB", "b", "y")]);
    for a in [5, 9, 10, 15, 20, 21, 30, 31] {
        let via_index = store.find_indexed(a).map(|r| r.id);
        let via_scan = store.find_scan(a).map(|r| r.id);
        assert_eq!(via_index, via_scan);
    }
    assert_eq!(store.find_indexed(15).unwrap().id, 1);
}

#[test]
fn plan_forced_either_way_gives_identical_output() {
    let mut store = RangeStore::new();
    let below_pivot: u32 = 16777217;
    store.reload(vec![rec(1, 16777216, 16777471, "AU", "Vic", "Melbourne")]);
    assert_eq!(choose_plan(below_pivot), QueryPlan::Indexed);
    let a = store.find_indexed(below_pivot).unwrap();
    let b = store.find_scan(below_pivot).unwrap();
    assert_eq!(
        (a.country.clone(), a.region.clone(), a.city.clone()),
        (b.country.clone(), b.region.clone(), b.city.clone())
    );
    let c = store.find(below_pivot).unwrap();
    assert_eq!(c.city, "Melbourne");
}

#[test]
fn pivot_splits_the_plans() {
    assert_eq!(choose_plan(0), QueryPlan::Indexed);
    assert_eq!(choose_plan(1216605194), QueryPlan::Indexed);
    assert_eq!(choose_plan(1216605195), QueryPlan::FullScan);
    assert_eq!(choose_plan(u32::MAX), QueryPlan::FullScan);
}

#[test]
fn lookup_works_above_the_pivot_too() {
    let mut store = RangeStore::new();
    store.reload(vec![rec(3, 2000000000, 2000000100, "JP", "13", "Tokyo")]);
    assert_eq!(choose_plan(2000000050), QueryPlan::FullScan);
    assert_eq!(store.find(2000000050).unwrap().city, "Tokyo");
    assert!(store.find(1999999999).is_none());
}

#[test]
fn reload_replaces_previous_contents() {
    let mut store = RangeStore::new();
    store.reload(vec![rec(1, 10, 20, "AA", "a", "x")]);
    assert!(store.find(15).is_some());
    store.reload(vec![rec(2, 100, 110, "BB", "b", "y")]);
    assert_eq!(store.len(), 1);
    assert!(store.find(15).is_none());
    assert_eq!(store.find(105).unwrap().id, 2);
}

#[test]
fn load_larger_than_one_batch() {
    // more rows than one 512-row bulk insert, loaded out of order
    let mut records = Vec::new();
    for k in 0..1200u32 {
        let start = (1199 - k) * 10;
        records.push(rec(k, start, start + 5, "CC", "c", "z"));
    }
    let mut store = RangeStore::new();
    store.reload(records);
    assert_eq!(store.len(), 1200);
    assert_eq!(store.get(0).id, 0);
    assert_eq!(store.find(0).unwrap().id, 1199);
    assert_eq!(store.find(11995).unwrap().id, 0);
    assert_eq!(store.find(43).unwrap().id, 1195);
    assert!(store.find(11999).is_none());
    assert!(store.find(47).is_none());
}

#[test]
fn summarize_reports_exact_sum_and_extremes() {
    let stats = summarize(&vec![5, 3, 9, 3, 7]).unwrap();
    assert_eq!(stats.count, 5);
    assert_eq!(stats.sum, 27);
    assert_eq!(stats.max, 9);
    assert_eq!(stats.min, 3);
}

#[test]
fn summarize_of_nothing_is_nothing() {
    assert!(summarize(&Vec::new()).is_none());
}
