use listing_contract::contract::{AccessError, Contract};
use listing_contract::identity::IdentityMap;
use listing_contract::listing::ListingKind;

fn s(x: &str) -> String {
    x.to_string()
}

fn with_listing(product_id: u64, owner: &str) -> Contract {
    let mut c = Contract::default();
    c.create_listing(product_id, 100, s("group"), ListingKind::Dataset, s("bafy"), s(owner), true, Some(s("sig")));
    c
}

#[test]
fn create_then_find_returns_fresh_listing() {
    let c = with_listing(7, "alice");
    let l = c.get_listing(7).expect("listing exists");
    assert_eq!(l.product_id, 7);
    assert_eq!(l.price, 100);
    assert_eq!(l.nova_group_id, "group");
    assert_eq!(l.owner, "alice");
    assert_eq!(l.purchase_number, 0);
    assert_eq!(l.list_type, ListingKind::Dataset);
    assert_eq!(l.cid, "bafy");
    assert!(l.is_active);
    assert!(l.buyers.is_empty());
    assert!(l.buyers_with_access.is_empty());
    assert!(l.is_tee_verified);
    assert_eq!(l.tee_signature, Some(s("sig")));
}

#[test]
fn unknown_listing_is_absent() {
    let c = with_listing(7, "alice");
    assert!(c.get_listing(8).is_none());
    assert!(!c.has_purchased(8, s("bob")));
    assert!(!c.has_access(8, s("bob")));
    assert!(c.get_pending_access_buyers(8).is_empty());
    assert!(c.get_buyers_with_access(8).is_empty());
    assert!(c.get_pending_buyers_with_nova_accounts(8).is_empty());
}

#[test]
fn listings_keep_creation_order() {
    let mut c = with_listing(3, "alice");
    c.create_listing(1, 5, s("g"), ListingKind::Audio, s("c"), s("carol"), false, None);
    let all = c.get_listings();
    assert_eq!(all.len(), 2);
    assert_eq!(all[0].product_id, 3);
    assert_eq!(all[1].product_id, 1);
    assert_eq!(all[1].tee_signature, None);
}

#[test]
fn repeated_purchases_count_calls_but_add_buyer_once() {
    let mut c = with_listing(1, "alice");
    for _ in 0..3 {
        c.buy(1, s("bob"), s("bob.ext"));
    }
    let l = c.get_listing(1).unwrap();
    assert_eq!(l.purchase_number, 3);
    assert_eq!(l.buyers, vec![s("bob")]);
}

#[test]
fn buy_on_unknown_listing_still_maps_account() {
    let mut c = with_listing(1, "alice");
    c.buy(99, s("bob"), s("bob.ext"));
    assert_eq!(c.get_nova_account(s("bob")), Some(s("bob.ext")));
    assert_eq!(c.get_listing(1).unwrap().purchase_number, 0);
    assert!(!c.has_purchased(1, s("bob")));
}

#[test]
fn grant_to_non_buyer_is_precondition_error() {
    let mut c = with_listing(1, "alice");
    assert_eq!(c.grant_buyer_access(1, s("bob"), s("alice")), Err(AccessError::Precondition));
    assert!(!c.has_access(1, s("bob")));
}

#[test]
fn grant_twice_is_idempotent() {
    let mut c = with_listing(1, "alice");
    c.buy(1, s("bob"), s("bob.ext"));
    assert_eq!(c.grant_buyer_access(1, s("bob"), s("alice")), Ok(()));
    assert_eq!(c.grant_buyer_access(1, s("bob"), s("alice")), Ok(()));
    assert_eq!(c.get_buyers_with_access(1), vec![s("bob")]);
}

#[test]
fn non_owner_grant_and_revoke_are_refused() {
    let mut c = with_listing(1, "alice");
    c.buy(1, s("bob"), s("bob.ext"));
    assert_eq!(c.grant_buyer_access(1, s("bob"), s("mallory")), Err(AccessError::Authorization));
    assert_eq!(c.grant_buyer_access(1, s("dave"), s("mallory")), Err(AccessError::Authorization));
    assert!(!c.has_access(1, s("bob")));
    c.grant_buyer_access(1, s("bob"), s("alice")).unwrap();
    assert_eq!(c.revoke_buyer_access(1, s("bob"), s("mallory")), Err(AccessError::Authorization));
    assert!(c.has_access(1, s("bob")));
}

#[test]
fn grant_and_revoke_on_unknown_listing_do_nothing() {
    let mut c = with_listing(1, "alice");
    assert_eq!(c.grant_buyer_access(2, s("bob"), s("anyone")), Ok(()));
    assert_eq!(c.revoke_buyer_access(2, s("bob"), s("anyone")), Ok(()));
}

#[test]
fn revoke_removes_access_and_is_idempotent() {
    let mut c = with_listing(1, "alice");
    c.buy(1, s("bob"), s("bob.ext"));
    c.buy(1, s("carol"), s("carol.ext"));
    c.grant_buyer_access(1, s("bob"), s("alice")).unwrap();
    c.grant_buyer_access(1, s("carol"), s("alice")).unwrap();
    assert_eq!(c.revoke_buyer_access(1, s("bob"), s("alice")), Ok(()));
    assert!(!c.has_access(1, s("bob")));
    assert_eq!(c.revoke_buyer_access(1, s("bob"), s("alice")), Ok(()));
    assert_eq!(c.get_buyers_with_access(1), vec![s("carol")]);
    assert_eq!(c.get_pending_access_buyers(1), vec![s("bob")]);
}

#[test]
fn pending_and_granted_partition_buyers() {
    let mut c = with_listing(1, "alice");
    for b in ["b1", "b2", "b3", "b4"] {
        c.buy(1, s(b), format!("{}.ext", b));
    }
    c.grant_buyer_access(1, s("b3"), s("alice")).unwrap();
    c.grant_buyer_access(1, s("b1"), s("alice")).unwrap();
    c.revoke_buyer_access(1, s("b3"), s("alice")).unwrap();
    let pending = c.get_pending_access_buyers(1);
    let granted = c.get_buyers_with_access(1);
    assert_eq!(pending, vec![s("b2"), s("b3"), s("b4")]);
    assert_eq!(granted, vec![s("b1")]);
    let mut all: Vec<String> = pending.iter().chain(granted.iter()).cloned().collect();
    all.sort();
    let mut buyers = c.get_listing(1).unwrap().buyers;
    buyers.sort();
    assert_eq!(all, buyers);
    assert!(pending.iter().all(|p| !granted.contains(p)));
}

#[test]
fn pending_with_accounts_pairs_each_pending_buyer() {
    let mut c = with_listing(1, "alice");
    c.buy(1, s("bob"), s("bob.ext"));
    c.buy(1, s("carol"), s("carol.ext"));
    c.buy(1, s("bob"), s("bob.new"));
    c.grant_buyer_access(1, s("carol"), s("alice")).unwrap();
    assert_eq!(c.get_pending_buyers_with_nova_accounts(1), vec![(s("bob"), s("bob.new"))]);
}

#[test]
fn identity_map_round_trip_and_overwrite() {
    let mut m = IdentityMap::new();
    assert_eq!(m.lookup(&s("a")), None);
    m.upsert(s("a"), s("x"));
    assert_eq!(m.lookup(&s("a")), Some(s("x")));
    m.upsert(s("b"), s("z"));
    m.upsert(s("a"), s("y"));
    assert_eq!(m.lookup(&s("a")), Some(s("y")));
    assert_eq!(m.lookup(&s("b")), Some(s("z")));
}

#[test]
fn end_to_end_purchase_and_grant() {
    let mut c = Contract::default();
    c.create_listing(1, 10, s("g"), ListingKind::Image, s("cid"), s("alice"), false, None);
    c.buy(1, s("bob"), s("bob.ext"));
    assert!(c.has_purchased(1, s("bob")));
    assert!(!c.has_access(1, s("bob")));
    assert_eq!(c.grant_buyer_access(1, s("bob"), s("alice")), Ok(()));
    assert!(c.has_access(1, s("bob")));
    assert_eq!(c.grant_buyer_access(1, s("bob"), s("carol")), Err(AccessError::Authorization));
}

#[test]
fn duplicate_product_id_resolves_to_earliest() {
    let mut c = Contract::default();
    c.create_listing(5, 1, s("g1"), ListingKind::Image, s("first"), s("alice"), false, None);
    c.create_listing(5, 2, s("g2"), ListingKind::Other, s("second"), s("carol"), false, None);
    let l = c.get_listing(5).unwrap();
    assert_eq!(l.cid, "first");
    assert_eq!(l.owner, "alice");
    c.buy(5, s("bob"), s("bob.ext"));
    let all = c.get_listings();
    assert_eq!(all[0].purchase_number, 1);
    assert_eq!(all[1].purchase_number, 0);
    assert_eq!(c.grant_buyer_access(5, s("bob"), s("carol")), Err(AccessError::Authorization));
}

#[test]
fn duplicate_copies_every_field() {
    let mut c = with_listing(1, "alice");
    c.buy(1, s("bob"), s("bob.ext"));
    c.grant_buyer_access(1, s("bob"), s("alice")).unwrap();
    let l = c.get_listing(1).unwrap();
    let d = l.duplicate();
    assert_eq!(d.buyers, l.buyers);
    assert_eq!(d.buyers_with_access, l.buyers_with_access);
    assert_eq!(d.tee_signature, l.tee_signature);
    assert_eq!(d.purchase_number, 1);
}

fn bare_listing(buyers: &[&str], with_access: &[&str]) -> listing_contract::listing::Listing {
    listing_contract::listing::Listing {
        product_id: 4,
        price: 9,
        nova_group_id: s("g"),
        owner: s("alice"),
        purchase_number: 2,
        list_type: ListingKind::Other,
        cid: s("cid"),
        is_active: true,
        buyers: buyers.iter().map(|b| s(b)).collect(),
        buyers_with_access: with_access.iter().map(|b| s(b)).collect(),
        is_tee_verified: false,
        tee_signature: None,
    }
}

#[test]
fn from_parts_rebuilds_saved_ledger() {
    let mut c = with_listing(1, "alice");
    c.buy(1, s("bob"), s("bob.ext"));
    c.buy(1, s("carol"), s("carol.ext"));
    c.grant_buyer_access(1, s("carol"), s("alice")).unwrap();
    let mut entries = c.account_entries();
    entries.sort();
    assert_eq!(entries, vec![(s("bob"), s("bob.ext")), (s("carol"), s("carol.ext"))]);
    let r = Contract::from_parts(c.get_listings(), &entries).expect("well formed");
    assert!(r.has_purchased(1, s("bob")));
    assert!(r.has_access(1, s("carol")));
    assert_eq!(r.get_pending_buyers_with_nova_accounts(1), vec![(s("bob"), s("bob.ext"))]);
    assert_eq!(r.get_listing(1).unwrap().purchase_number, 2);
}

#[test]
fn from_parts_later_pair_wins() {
    let pairs = vec![(s("a"), s("x")), (s("a"), s("y"))];
    let r = Contract::from_parts(vec![], &pairs).unwrap();
    assert_eq!(r.get_nova_account(s("a")), Some(s("y")));
    assert_eq!(r.account_entries(), vec![(s("a"), s("y"))]);
}

#[test]
fn from_parts_refuses_malformed_listings() {
    assert!(bare_listing(&["bob"], &["bob"]).is_well_formed());
    assert!(!bare_listing(&["bob", "bob"], &[]).is_well_formed());
    assert!(!bare_listing(&["bob"], &["carol"]).is_well_formed());
    assert!(!bare_listing(&["bob"], &["bob", "bob"]).is_well_formed());
    assert!(Contract::from_parts(vec![bare_listing(&["bob"], &["carol"])], &vec![]).is_none());
    assert!(Contract::from_parts(vec![bare_listing(&["bob", "bob"], &[])], &vec![]).is_none());
    assert!(Contract::from_parts(vec![bare_listing(&["bob"], &["bob"])], &vec![]).is_some());
}
