use prediction_market::{Contract, MarketError, Offer, SharePair, ViewMarket};

fn s(x: &str) -> String {
    x.to_string()
}

fn pair_is(p: &SharePair, long: &str, short: &str, amount: u128) -> bool {
    p.long == long && p.short == short && p.amount == amount
}

fn offer_is(o: &Offer, id: u32, market_id: u32, is_long: bool, account: &str, amount: u128) -> bool {
    o.id == id && o.market_id == market_id && o.is_long == is_long && o.account_id == account && o.amount == amount
}

/// One market owned by "owner.near" with id 0.
fn with_market() -> Contract {
    let mut c = Contract::new();
    let v = c.create_market(s("X wins?"), s("owner.near"));
    assert_eq!(v.id, 0);
    c
}

#[test]
fn scenario_match_close_withdraw() {
    let mut c = with_market();
    let o = c.create_offer(0, true, 100, s("a.near")).unwrap();
    assert!(offer_is(&o, 0, 0, true, "a.near", 100));
    assert_eq!(c.accept_offer(o.id, 100, s("b.near")).map(|o| o.id), Ok(o.id));
    let shares = c.market_shares(0).unwrap();
    assert_eq!(shares.len(), 1);
    assert!(pair_is(&shares[0], "a.near", "b.near", 100));
    assert_eq!(c.close_market(0, true, s("owner.near")), Ok(()));
    assert_eq!(c.credit_of(&s("a.near")), Some(200));
    assert_eq!(c.credit_of(&s("b.near")), None);
    assert_eq!(c.withdraw(s("a.near")), Ok(200));
    assert_eq!(c.credit_of(&s("a.near")), None);
}

#[test]
fn mismatched_amount_keeps_offer() {
    let mut c = with_market();
    let o = c.create_offer(0, true, 100, s("a.near")).unwrap();
    assert_eq!(c.accept_offer(o.id, 99, s("b.near")).map(|o| o.id), Err(MarketError::AmountMismatch));
    let open = c.get_offers(0);
    assert_eq!(open.len(), 1);
    assert!(offer_is(&open[0], 0, 0, true, "a.near", 100));
    assert_eq!(c.market_shares(0).unwrap().len(), 0);
    assert_eq!(c.accept_offer(o.id, 100, s("b.near")).map(|o| o.id), Ok(o.id));
    assert_eq!(c.get_offers(0).len(), 0);
}

#[test]
fn second_acceptance_not_found() {
    let mut c = with_market();
    let o = c.create_offer(0, false, 7, s("a.near")).unwrap();
    assert_eq!(c.accept_offer(o.id, 7, s("b.near")).map(|o| o.id), Ok(o.id));
    assert_eq!(c.accept_offer(o.id, 7, s("c.near")).map(|o| o.id), Err(MarketError::NotFound));
    assert_eq!(c.accept_offer(o.id, 7, s("b.near")).map(|o| o.id), Err(MarketError::NotFound));
    assert_eq!(c.market_shares(0).unwrap().len(), 1);
}

#[test]
fn unknown_offer_not_found() {
    let mut c = with_market();
    assert_eq!(c.accept_offer(3, 10, s("b.near")).map(|o| o.id), Err(MarketError::NotFound));
}

#[test]
fn self_match_rejected() {
    let mut c = with_market();
    let o = c.create_offer(0, true, 50, s("a.near")).unwrap();
    assert_eq!(c.accept_offer(o.id, 50, s("a.near")).map(|o| o.id), Err(MarketError::SelfMatch));
    assert_eq!(c.get_offers(0).len(), 1);
    assert_eq!(c.market_shares(0).unwrap().len(), 0);
}

#[test]
fn close_twice_already_closed() {
    let mut c = with_market();
    let o = c.create_offer(0, true, 10, s("a.near")).unwrap();
    c.accept_offer(o.id, 10, s("b.near")).unwrap();
    assert_eq!(c.close_market(0, false, s("owner.near")), Ok(()));
    assert_eq!(c.credit_of(&s("b.near")), Some(20));
    assert_eq!(c.close_market(0, true, s("owner.near")), Err(MarketError::AlreadyClosed));
    assert_eq!(c.credit_of(&s("b.near")), Some(20));
    assert_eq!(c.credit_of(&s("a.near")), None);
    let shares = c.market_shares(0).unwrap();
    assert_eq!(shares.len(), 1);
    assert!(pair_is(&shares[0], "a.near", "b.near", 10));
    assert!(!c.get_market(0).unwrap().is_open);
}

#[test]
fn withdraw_twice_no_balance() {
    let mut c = with_market();
    let o = c.create_offer(0, false, 30, s("a.near")).unwrap();
    c.accept_offer(o.id, 30, s("b.near")).unwrap();
    c.close_market(0, false, s("owner.near")).unwrap();
    assert_eq!(c.withdraw(s("a.near")), Ok(60));
    assert_eq!(c.withdraw(s("a.near")), Err(MarketError::NoBalance));
}

#[test]
fn withdraw_without_credit() {
    let mut c = Contract::new();
    assert_eq!(c.withdraw(s("nobody.near")), Err(MarketError::NoBalance));
}

#[test]
fn settlement_conserves_collateral() {
    let mut c = with_market();
    // a long 10 vs b; c short 25 vs d (d long); a long 5 vs c.
    let o1 = c.create_offer(0, true, 10, s("a.near")).unwrap();
    let o2 = c.create_offer(0, false, 25, s("c.near")).unwrap();
    let o3 = c.create_offer(0, true, 5, s("a.near")).unwrap();
    c.accept_offer(o1.id, 10, s("b.near")).unwrap();
    c.accept_offer(o2.id, 25, s("d.near")).unwrap();
    c.accept_offer(o3.id, 5, s("c.near")).unwrap();
    let shares = c.market_shares(0).unwrap();
    assert!(pair_is(&shares[1], "d.near", "c.near", 25));
    let stake: u128 = shares.iter().map(|p| p.amount).sum();
    assert_eq!(stake, 40);
    c.close_market(0, true, s("owner.near")).unwrap();
    let a = c.credit_of(&s("a.near")).unwrap();
    let d = c.credit_of(&s("d.near")).unwrap();
    assert_eq!(a, 30);
    assert_eq!(d, 50);
    assert_eq!(a + d, 2 * stake);
    assert_eq!(c.credit_of(&s("b.near")), None);
    assert_eq!(c.credit_of(&s("c.near")), None);
}

#[test]
fn credits_accumulate_across_markets() {
    let mut c = with_market();
    c.create_market(s("Y wins?"), s("owner.near"));
    let o1 = c.create_offer(0, true, 10, s("a.near")).unwrap();
    let o2 = c.create_offer(1, true, 4, s("a.near")).unwrap();
    c.accept_offer(o1.id, 10, s("b.near")).unwrap();
    c.accept_offer(o2.id, 4, s("b.near")).unwrap();
    c.close_market(0, true, s("owner.near")).unwrap();
    c.close_market(1, true, s("owner.near")).unwrap();
    assert_eq!(c.credit_of(&s("a.near")), Some(28));
    assert_eq!(c.withdraw(s("a.near")), Ok(28));
}

#[test]
fn close_unknown_market() {
    let mut c = with_market();
    assert_eq!(c.close_market(1, true, s("owner.near")), Err(MarketError::NotFound));
}

#[test]
fn close_by_other_unauthorized() {
    let mut c = with_market();
    assert_eq!(c.close_market(0, true, s("a.near")), Err(MarketError::Unauthorized));
    assert!(c.get_market(0).unwrap().is_open);
}

#[test]
fn zero_offer_rejected() {
    let mut c = with_market();
    assert!(matches!(c.create_offer(0, true, 0, s("a.near")), Err(MarketError::ZeroAmount)));
    assert_eq!(c.next_offer_id(), 0);
    assert_eq!(c.get_offers(0).len(), 0);
}

#[test]
fn offer_on_missing_market_gone() {
    let mut c = with_market();
    let o = c.create_offer(5, true, 9, s("a.near")).unwrap();
    assert_eq!(o.market_id, 5);
    assert_eq!(c.accept_offer(o.id, 9, s("b.near")).map(|o| o.id), Err(MarketError::MarketGone));
    assert_eq!(c.get_offers(5).len(), 1);
}

#[test]
fn accept_on_closed_market_refused() {
    let mut c = with_market();
    let o = c.create_offer(0, true, 9, s("a.near")).unwrap();
    c.close_market(0, true, s("owner.near")).unwrap();
    assert_eq!(c.accept_offer(o.id, 9, s("b.near")).map(|o| o.id), Err(MarketError::AlreadyClosed));
    assert_eq!(c.market_shares(0).unwrap().len(), 0);
    assert_eq!(c.credit_of(&s("a.near")), None);
}

#[test]
fn short_offer_acceptor_goes_long() {
    let mut c = with_market();
    let o = c.create_offer(0, false, 3, s("a.near")).unwrap();
    c.accept_offer(o.id, 3, s("b.near")).unwrap();
    assert!(pair_is(&c.market_shares(0).unwrap()[0], "b.near", "a.near", 3));
}

#[test]
fn settlement_overflow_changes_nothing() {
    let mut c = with_market();
    let big = u128::MAX / 2 + 1;
    let o = c.create_offer(0, true, big, s("a.near")).unwrap();
    c.accept_offer(o.id, big, s("b.near")).unwrap();
    assert_eq!(c.close_market(0, true, s("owner.near")), Err(MarketError::Overflow));
    assert!(c.get_market(0).unwrap().is_open);
    assert_eq!(c.credit_of(&s("a.near")), None);
}

#[test]
fn largest_settlement_fits() {
    let mut c = with_market();
    let big = u128::MAX / 2;
    let o = c.create_offer(0, false, big, s("a.near")).unwrap();
    c.accept_offer(o.id, big, s("b.near")).unwrap();
    assert_eq!(c.close_market(0, false, s("owner.near")), Ok(()));
    assert_eq!(c.credit_of(&s("a.near")), Some(u128::MAX - 1));
}

#[test]
fn offer_ids_are_global() {
    let mut c = with_market();
    c.create_market(s("Y wins?"), s("other.near"));
    let o1 = c.create_offer(1, true, 1, s("a.near")).unwrap();
    let o2 = c.create_offer(0, true, 2, s("a.near")).unwrap();
    let o3 = c.create_offer(1, false, 3, s("b.near")).unwrap();
    assert_eq!((o1.id, o2.id, o3.id), (0, 1, 2));
    assert_eq!(c.next_offer_id(), 3);
    let in1 = c.get_offers(1);
    assert_eq!(in1.len(), 2);
    assert!(offer_is(&in1[0], 0, 1, true, "a.near", 1));
    assert!(offer_is(&in1[1], 2, 1, false, "b.near", 3));
    assert_eq!(c.get_offers(0).len(), 1);
    assert_eq!(c.get_offers(7).len(), 0);
}

#[test]
fn markets_listed_in_order() {
    let mut c = Contract::new();
    assert!(c.list_markets().is_empty());
    assert!(c.get_market(0).is_none());
    let v0 = c.create_market(s("X wins?"), s("o1.near"));
    let v1 = c.create_market(s("Y wins?"), s("o2.near"));
    assert_eq!((v0.id, v1.id), (0, 1));
    assert!(v0.is_open && v0.shares == 0 && v0.description == "X wins?" && v0.owner == "o1.near");
    let all = c.list_markets();
    assert_eq!(all.len(), 2);
    assert_eq!(all[1].description, "Y wins?");
    assert_eq!(all[1].owner, "o2.near");
    let o = c.create_offer(1, true, 5, s("a.near")).unwrap();
    c.accept_offer(o.id, 5, s("b.near")).unwrap();
    let v: ViewMarket = c.get_market(1).unwrap();
    assert_eq!(v.shares, 1);
    assert!(c.get_market(2).is_none());
    let m = c.market_shares(1).unwrap();
    assert_eq!(m.len(), 1);
}

#[test]
fn view_of_market() {
    let m = prediction_market::Market {
        id: 4,
        is_open: false,
        description: s("Z?"),
        owner: s("o.near"),
        shares: vec![
            SharePair { long: s("a"), short: s("b"), amount: 1 },
            SharePair { long: s("c"), short: s("d"), amount: 2 },
        ],
    };
    let v = ViewMarket::from(&m);
    assert_eq!((v.id, v.is_open, v.shares), (4, false, 2));
    assert_eq!(v.description, "Z?");
    assert_eq!(v.owner, "o.near");
}
