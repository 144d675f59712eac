//! Pagination: limit clamping, out-of-range starts and cursor chaining.

use revora_revenue_share::RevoraRevenueShare;
use revora_revenue_share::MAX_PAGE_LIMIT;

fn registry_with_offerings(issuer: u64, count: u64) -> RevoraRevenueShare {
    let mut reg = RevoraRevenueShare::new();
    for i in 0..count {
        reg.register_offering(issuer, 1000 + i, 100, true).unwrap();
    }
    reg
}

#[test]
fn start_past_end_yields_empty_page_and_no_cursor() {
    let reg = registry_with_offerings(1, 2);
    let (page, cursor) = reg.get_offerings_page(1, 2, 5);
    assert!(page.is_empty());
    assert_eq!(cursor, None);

    let (page, cursor) = reg.get_offerings_page(1, 7, 5);
    assert!(page.is_empty());
    assert_eq!(cursor, None);

    // Probing an unknown issuer is safe too.
    let (page, cursor) = reg.get_offerings_page(9, 0, 5);
    assert!(page.is_empty());
    assert_eq!(cursor, None);
}

#[test]
fn limit_zero_means_maximum() {
    let reg = registry_with_offerings(1, 25);
    let (page, cursor) = reg.get_offerings_page(1, 0, 0);
    assert_eq!(page.len(), MAX_PAGE_LIMIT);
    assert_eq!(cursor, Some(MAX_PAGE_LIMIT));
}

#[test]
fn limit_above_cap_is_clamped() {
    // 25 offerings, limit 50: page of 20, cursor Some(20).
    let reg = registry_with_offerings(1, 25);
    let (page, cursor) = reg.get_offerings_page(1, 0, 50);
    assert_eq!(page.len(), 20);
    assert_eq!(cursor, Some(20));

    let (page, cursor) = reg.get_offerings_page(1, 20, 50);
    assert_eq!(page.len(), 5);
    assert_eq!(cursor, None);
}

#[test]
fn cursor_chaining_visits_all_in_order() {
    // 7 offerings, limit 3: pages of sizes 3 (cursor 3), 3 (cursor 6), 1 (None).
    let issuer: u64 = 1;
    let reg = registry_with_offerings(issuer, 7);

    let (page1, cursor1) = reg.get_offerings_page(issuer, 0, 3);
    assert_eq!(page1.len(), 3);
    assert_eq!(cursor1, Some(3));

    let (page2, cursor2) = reg.get_offerings_page(issuer, cursor1.unwrap(), 3);
    assert_eq!(page2.len(), 3);
    assert_eq!(cursor2, Some(6));

    let (page3, cursor3) = reg.get_offerings_page(issuer, cursor2.unwrap(), 3);
    assert_eq!(page3.len(), 1);
    assert_eq!(cursor3, None);

    let mut visited: Vec<u64> = Vec::new();
    for off in page1.iter().chain(page2.iter()).chain(page3.iter()) {
        assert_eq!(off.issuer, issuer);
        visited.push(off.token);
    }
    // Every offering exactly once, in creation order.
    assert_eq!(visited, reg.list_offerings(issuer));
}

#[test]
fn page_contents_match_creation_slice() {
    let issuer: u64 = 1;
    let reg = registry_with_offerings(issuer, 6);
    let (page, cursor) = reg.get_offerings_page(issuer, 2, 3);
    assert_eq!(cursor, Some(5));
    let tokens: Vec<u64> = page.iter().map(|o| o.token).collect();
    assert_eq!(tokens, vec![1002, 1003, 1004]);

    let (tail, end) = reg.get_offerings_page(issuer, 5, 3);
    assert_eq!(tail.len(), 1);
    assert_eq!(tail[0].token, 1005);
    assert_eq!(end, None);
}

#[test]
fn exact_fit_page_returns_no_cursor() {
    let reg = registry_with_offerings(1, 3);
    let (page, cursor) = reg.get_offerings_page(1, 0, 3);
    assert_eq!(page.len(), 3);
    assert_eq!(cursor, None);
}
