//! Offering registry: registration, lookup, listing, isolation and the
//! rejection paths.

use revora_revenue_share::Error;
use revora_revenue_share::OfferingStatus;
use revora_revenue_share::RevoraRevenueShare;

#[test]
fn register_stores_offering_data() {
    let mut reg = RevoraRevenueShare::new();
    let issuer: u64 = 11;
    let token: u64 = 22;
    let bps: u32 = 500;

    reg.register_offering(issuer, token, bps, true).unwrap();

    let maybe_offering = reg.get_offering(issuer, token);
    assert!(maybe_offering.is_some());

    let offering = maybe_offering.unwrap();
    assert_eq!(offering.issuer, issuer);
    assert_eq!(offering.token, token);
    assert_eq!(offering.revenue_share_bps, bps);
    assert_eq!(offering.status, OfferingStatus::Active);
}

#[test]
fn list_offerings_returns_all_for_issuer() {
    let mut reg = RevoraRevenueShare::new();
    let issuer: u64 = 1;
    let token_a: u64 = 2;
    let token_b: u64 = 3;

    reg.register_offering(issuer, token_a, 100, true).unwrap();
    reg.register_offering(issuer, token_b, 200, true).unwrap();

    let list = reg.list_offerings(issuer);
    assert_eq!(list.len(), 2);
    assert!(list.contains(&token_a));
    assert!(list.contains(&token_b));
}

#[test]
fn cannot_register_duplicate_offering() {
    let mut reg = RevoraRevenueShare::new();
    let issuer: u64 = 1;
    let token: u64 = 2;

    reg.register_offering(issuer, token, 100, true).unwrap();
    let second = reg.register_offering(issuer, token, 100, true);
    assert_eq!(second, Err(Error::AlreadyExists));

    // The first registration's data is unaffected.
    let offering = reg.get_offering(issuer, token).unwrap();
    assert_eq!(offering.revenue_share_bps, 100);
    assert_eq!(reg.get_offering_count(issuer), 1);
}

#[test]
fn cannot_register_with_invalid_bps() {
    let mut reg = RevoraRevenueShare::new();
    let issuer: u64 = 1;
    let token: u64 = 2;

    let res = reg.register_offering(issuer, token, 10_001, true);
    assert_eq!(res, Err(Error::InvalidParameter));
}

#[test]
fn invalid_bps_leaves_count_unchanged() {
    let mut reg = RevoraRevenueShare::new();
    let issuer: u64 = 1;
    reg.register_offering(issuer, 2, 10_000, true).unwrap();

    let res = reg.register_offering(issuer, 3, 10_001, true);
    assert_eq!(res, Err(Error::InvalidParameter));
    assert_eq!(reg.get_offering_count(issuer), 1);
    assert!(reg.get_offering(issuer, 3).is_none());
}

#[test]
fn register_offering_requires_auth() {
    let mut reg = RevoraRevenueShare::new();
    let issuer: u64 = 1;
    let token: u64 = 2;

    let res = reg.register_offering(issuer, token, 100, false);
    assert_eq!(res, Err(Error::Unauthorized));
    // Zero state mutation.
    assert!(reg.get_offering(issuer, token).is_none());
    assert_eq!(reg.get_offering_count(issuer), 0);
    assert_eq!(reg.events().len(), 0);
}

#[test]
fn get_offering_none_for_nonexistent() {
    let reg = RevoraRevenueShare::new();
    assert!(reg.get_offering(1, 2).is_none());
}

#[test]
fn list_offerings_empty_for_new_issuer() {
    let reg = RevoraRevenueShare::new();
    assert_eq!(reg.list_offerings(1).len(), 0);
}

#[test]
fn offering_isolation_between_issuers() {
    let mut reg = RevoraRevenueShare::new();
    let issuer_a: u64 = 1;
    let issuer_b: u64 = 2;
    let token: u64 = 3;

    reg.register_offering(issuer_a, token, 100, true).unwrap();
    reg.register_offering(issuer_b, token, 200, true).unwrap();

    let off_a = reg.get_offering(issuer_a, token).unwrap();
    let off_b = reg.get_offering(issuer_b, token).unwrap();

    assert_eq!(off_a.revenue_share_bps, 100);
    assert_eq!(off_b.revenue_share_bps, 200);

    assert_eq!(reg.list_offerings(issuer_a).len(), 1);
    assert_eq!(reg.list_offerings(issuer_b).len(), 1);
}

#[test]
fn scale_test_many_offerings_one_issuer() {
    let mut reg = RevoraRevenueShare::new();
    let issuer: u64 = 7;

    for i in 0..50u32 {
        let token: u64 = 100 + i as u64;
        reg.register_offering(issuer, token, i * 10, true).unwrap();
    }

    assert_eq!(reg.list_offerings(issuer).len(), 50);
}

#[test]
fn list_order_is_creation_order() {
    let mut reg = RevoraRevenueShare::new();
    let issuer: u64 = 1;
    reg.register_offering(issuer, 30, 1, true).unwrap();
    reg.register_offering(2, 99, 2, true).unwrap(); // another issuer, ignored
    reg.register_offering(issuer, 10, 3, true).unwrap();
    reg.register_offering(issuer, 20, 4, true).unwrap();

    assert_eq!(reg.list_offerings(issuer), vec![30, 10, 20]);
    assert_eq!(reg.get_offering_count(issuer), 3);
    assert_eq!(reg.get_offering_count(2), 1);
    assert_eq!(reg.get_offering_count(42), 0);
}
