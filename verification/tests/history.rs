use txgraph::history::HistoryPage;
use txgraph::history::HistoryScan;
use txgraph::history::MAX_PAGES;
use txgraph::history::PAGE_LIMIT;

fn s(x: &str) -> String {
    x.to_string()
}

#[test]
fn fresh_scan_is_empty() {
    let scan = HistoryScan::new();
    assert!(scan.signatures.is_empty());
    assert!(scan.before.is_none());
    assert_eq!(scan.pages, 0);
    assert_eq!(PAGE_LIMIT, 1000);
    assert_eq!(MAX_PAGES, 10);
}

#[test]
fn missing_page_stops_and_changes_nothing() {
    let mut scan = HistoryScan::new();
    let more = scan.absorb_page(HistoryPage::Missing);
    assert!(!more);
    assert!(scan.signatures.is_empty());
    assert!(scan.before.is_none());
    assert_eq!(scan.pages, 0);
}

#[test]
fn empty_page_stops_and_changes_nothing() {
    let mut scan = HistoryScan::new();
    let more = scan.absorb_page(HistoryPage::Entries(Vec::new()));
    assert!(!more);
    assert!(scan.signatures.is_empty());
    assert!(scan.before.is_none());
    assert_eq!(scan.pages, 0);
}

#[test]
fn page_collects_present_signatures_and_moves_cursor() {
    let mut scan = HistoryScan::new();
    let more = scan.absorb_page(HistoryPage::Entries(vec![
        Some(s("s1")),
        None,
        Some(s("s2")),
    ]));
    assert!(more);
    assert_eq!(scan.signatures, vec![s("s1"), s("s2")]);
    assert_eq!(scan.before, Some(s("s2")));
    assert_eq!(scan.pages, 1);
}

#[test]
fn unreadable_last_item_clears_cursor() {
    let mut scan = HistoryScan::new();
    let more = scan.absorb_page(HistoryPage::Entries(vec![Some(s("s1")), None]));
    assert!(more);
    assert_eq!(scan.signatures, vec![s("s1")]);
    assert!(scan.before.is_none());
    assert_eq!(scan.pages, 1);
}

#[test]
fn page_ceiling_stops_the_scan() {
    let mut scan = HistoryScan::new();
    let mut more = true;
    let mut rounds = 0;
    while more {
        more = scan.absorb_page(HistoryPage::Entries(vec![Some(s("sig"))]));
        rounds += 1;
        assert!(rounds <= MAX_PAGES);
    }
    assert_eq!(rounds, MAX_PAGES);
    assert_eq!(scan.pages, MAX_PAGES);
    assert_eq!(scan.signatures.len(), MAX_PAGES);
}
