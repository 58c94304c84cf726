//! The fallible entry points: they run the operation when it surely stays within
//! range, and otherwise decline and leave everything as it was.

use order_book::match_engine::MatchEngine;
use order_book::order_book::{OrderBook, OrderBookError, OrderEvent};
use order_book::types::{Account, Amount, AssetId, Order, OrderKind, Side, Tif};

fn dec(value: i64) -> Amount {
    Amount::from(value)
}

fn book() -> OrderBook {
    let mut book = OrderBook::new([AssetId::Btc]);
    for id in 1..=2u64 {
        book.add_account(Account::new(id, "t", vec![(AssetId::Btc, dec(10)), (AssetId::Usdc, dec(1_000))]).unwrap());
    }
    book
}

#[test]
fn try_place_order_places_an_ordinary_order() {
    let mut fallible = book();
    let mut plain = book();
    let a = fallible.try_place_order(1, AssetId::Btc, Side::Sell, OrderKind::Limit { price: 50 }, dec(4), None);
    let b = plain.place_order(1, AssetId::Btc, Side::Sell, OrderKind::Limit { price: 50 }, dec(4), None);
    assert_eq!(a, Some(b));
    let events = fallible
        .try_place_order(2, AssetId::Btc, Side::Buy, OrderKind::Market, dec(100), Some(Tif::ImmediateOrCancel))
        .unwrap()
        .unwrap();
    assert!(matches!(events[0], OrderEvent::Matched { maker_order_id: 1, .. }));
    assert_eq!(fallible.account(2).unwrap().balance(AssetId::Btc), dec(12));
    assert_eq!(fallible.account(1).unwrap().balance(AssetId::Usdc), dec(1_100));
    assert_eq!(fallible.order(1).unwrap().amount(), dec(2));
}

#[test]
fn try_place_order_reports_refusals() {
    let mut b = book();
    assert_eq!(
        b.try_place_order(1, AssetId::Usdc, Side::Buy, OrderKind::Limit { price: 1 }, dec(1), None),
        Some(Err(OrderBookError::InvalidAsset))
    );
    assert_eq!(
        b.try_place_order(1, AssetId::Btc, Side::Buy, OrderKind::Market, dec(1), Some(Tif::GoodUntilCancelled)),
        Some(Err(OrderBookError::MarketOrderCannotRest))
    );
}

#[test]
fn try_place_order_declines_a_trade_whose_price_overflows() {
    let big: i128 = 1 << 95;
    let mut b = OrderBook::new([AssetId::Btc]);
    b.add_account(Account::new(1, "s", vec![(AssetId::Btc, Amount::from_i128_with_scale(big, 0))]).unwrap());
    b.add_account(
        Account::new(2, "b", vec![(AssetId::Usdc, Amount::from_i128_with_scale((1i128 << 96) - 1, 0))]).unwrap(),
    );
    b.place_order(1, AssetId::Btc, Side::Sell, OrderKind::Limit { price: 2 }, Amount::from_i128_with_scale(big, 0), None)
        .unwrap();
    let r = b.try_place_order(
        2,
        AssetId::Btc,
        Side::Buy,
        OrderKind::Limit { price: 2 },
        Amount::from_i128_with_scale((1i128 << 96) - 1, 0),
        None,
    );
    assert_eq!(r, None);
    assert_eq!(b.orders().len(), 1);
    assert_eq!(b.account(2).unwrap().balance(AssetId::Usdc), Amount::from_i128_with_scale((1i128 << 96) - 1, 0));
    assert_eq!(b.account(1).unwrap().balance(AssetId::Btc), Amount::zero());
}

#[test]
fn try_process_order_matches_a_taker() {
    let mut b = book();
    b.place_order(1, AssetId::Btc, Side::Buy, OrderKind::Limit { price: 100 }, dec(300), None).unwrap();
    let mut taker =
        Order::new(9, 2, AssetId::Btc, Side::Sell, OrderKind::Limit { price: 90 }, dec(2), Tif::ImmediateOrCancel);
    let events = b.try_process_order(&mut taker).unwrap().unwrap();
    assert!(matches!(events[0], OrderEvent::Matched { taker_order_id: 9, maker_order_id: 1, .. }));
    assert_eq!(taker.amount(), Amount::zero());
    assert_eq!(b.order(1).unwrap().amount(), dec(100));
    assert_eq!(b.account(2).unwrap().balance(AssetId::Usdc), dec(1_200));
}

#[test]
fn try_match_orders_matches_at_the_makers_price() {
    let engine = MatchEngine::new([AssetId::Btc]);
    let mut maker =
        Order::new(1, 1, AssetId::Btc, Side::Sell, OrderKind::Limit { price: 20 }, dec(3), Tif::GoodUntilCancelled);
    let mut taker =
        Order::new(2, 2, AssetId::Btc, Side::Buy, OrderKind::Limit { price: 25 }, dec(100), Tif::GoodUntilCancelled);
    let result = engine.try_match_orders(&mut maker, &mut taker).unwrap().unwrap();
    assert_eq!(result.amount_traded, dec(3));
    assert_eq!(result.seller_stable_received, dec(60));
    assert_eq!(maker.amount(), Amount::zero());
    assert_eq!(taker.amount(), dec(40));
    assert!(result.sell_order_filled);
    assert!(!result.buy_order_filled);
}
