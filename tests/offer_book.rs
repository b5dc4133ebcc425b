use stocks::trade_house::{Offer, Offers, StockOption, Trade, TradeAction, TradeHouse};
use stocks::OFFER_LIFETIME;

#[test]
fn offer_expires_after_its_lifetime_and_not_before() {
    let mut book: Offers<Trade> = Offers::new();
    book.add_offer(Offer::new(3, 12, Trade::new(40)), TradeAction::Sell);
    for k in 1..OFFER_LIFETIME {
        let expired = book.tick();
        assert!(expired.is_empty());
        assert_eq!(book.seller_offers.len(), 1);
        assert_eq!(book.seller_offers[0].lifetime, OFFER_LIFETIME - k);
    }
    let expired = book.tick();
    assert_eq!(expired.len(), 1);
    assert_eq!(expired[0].1, TradeAction::Sell);
    assert_eq!(expired[0].0.offerer_id, 3);
    assert_eq!(expired[0].0.strike_price, 12);
    assert_eq!(expired[0].0.data.number_of_shares, 40);
    assert!(book.seller_offers.is_empty());
}

#[test]
fn tick_without_expiry_keeps_every_offer() {
    let mut book: Offers<Trade> = Offers::new();
    book.add_buyer_offer(Offer::new(1, 5, Trade::new(2)));
    book.add_buyer_offer(Offer::new(2, 6, Trade::new(3)));
    let ids: Vec<u64> = book.buyer_offers.iter().map(|o| o.id).collect();
    let expired = book.tick();
    assert!(expired.is_empty());
    assert_eq!(book.buyer_offers.len(), 2);
    assert_eq!(book.buyer_offers[0].id, ids[0]);
    assert_eq!(book.buyer_offers[1].id, ids[1]);
    assert_eq!(book.buyer_offers[1].data.number_of_shares, 3);
    let mut empty: Offers<Trade> = Offers::new();
    assert!(empty.tick().is_empty());
}

#[test]
fn candidates_within_deviation_in_book_order() {
    let mut house = TradeHouse::new();
    assert_eq!(house.get_appropriate_trade_offer(0, 10, 2, TradeAction::Sell), None);
    house.add_trade_offer(1, 0, 13, Trade::new(1), TradeAction::Sell);
    house.add_trade_offer(1, 0, 11, Trade::new(1), TradeAction::Sell);
    house.add_trade_offer(1, 0, 12, Trade::new(1), TradeAction::Sell);
    house.add_trade_offer(1, 0, 7, Trade::new(1), TradeAction::Buy);
    house.add_trade_offer(1, 0, 9, Trade::new(1), TradeAction::Buy);
    assert_eq!(house.get_appropriate_seller_trade_offer(0, 10, 2), Some(vec![1, 2]));
    assert_eq!(house.get_appropriate_buyer_trade_offer(0, 10, 2), Some(vec![1]));
    assert_eq!(house.get_appropriate_buyer_trade_offer(0, 10, 0), Some(vec![]));
    let removed = house.remove_trade_offer(0, TradeAction::Sell, 1);
    assert_eq!(removed.strike_price, 11);
    assert_eq!(house.get_appropriate_seller_trade_offer(0, 10, 2), Some(vec![1]));
}

#[test]
fn option_offers_expire_per_company() {
    let mut house = TradeHouse::new();
    house.add_option_offer(4, 9, 30, StockOption::new(6, 20), TradeAction::Buy);
    assert_eq!(house.get_appropriate_option_offer(9, 30, 0, TradeAction::Buy), Some(vec![0]));
    for _ in 1..OFFER_LIFETIME {
        let (trades, options) = house.tick();
        assert!(trades.is_empty() && options.is_empty());
    }
    let (_, options) = house.tick();
    let gone = &options[&9];
    assert_eq!(gone.len(), 1);
    assert_eq!(gone[0].0.data.time_to_expiry, 20);
    assert_eq!(gone[0].1, TradeAction::Buy);
    assert!(house.get_option_offers(9).unwrap().buyer_offers.is_empty());
}

#[test]
fn complement_flips_the_side() {
    assert_eq!(TradeAction::Buy.complement(), TradeAction::Sell);
    assert_eq!(TradeAction::Sell.complement(), TradeAction::Buy);
}
