//! What holds of the book over whole sequences of operations, on concrete values.

use order_book::match_engine::MatchEngine;
use order_book::order_book::{OrderBook, OrderBookError, OrderEvent};
use order_book::types::{Account, Amount, AssetId, OrderKind, Side, Tif};

fn dec(value: i64) -> Amount {
    Amount::from(value)
}

/// Balances of the asset plus the collateral of the asset held by resting orders.
fn total(book: &OrderBook, asset: AssetId) -> i128 {
    let mut t: i128 = 0;
    for a in book.accounts().values() {
        let b = a.balance(asset);
        assert_eq!(b.scale(), 0, "the amounts here are whole units");
        t += b.mantissa();
    }
    for o in book.orders().values() {
        let collateral = match o.side() {
            Side::Buy => AssetId::Usdc,
            Side::Sell => o.asset_id(),
        };
        if collateral == asset {
            assert_eq!(o.amount().scale(), 0);
            t += o.amount().mantissa();
        }
    }
    t
}

fn book_with_two_traders() -> OrderBook {
    let mut book = OrderBook::new([AssetId::Btc]);
    for id in 1..=2u64 {
        let account = Account::new(id, "trader", vec![(AssetId::Btc, dec(10)), (AssetId::Usdc, dec(10_000))])
            .expect("account");
        book.add_account(account);
    }
    book
}

#[test]
fn placing_matching_and_cancelling_conserve_each_asset() {
    let mut book = book_with_two_traders();
    let btc = total(&book, AssetId::Btc);
    let usdc = total(&book, AssetId::Usdc);
    assert_eq!((btc, usdc), (20, 20_000));

    book.place_order(1, AssetId::Btc, Side::Sell, OrderKind::Limit { price: 100 }, dec(3), None).unwrap();
    assert_eq!((total(&book, AssetId::Btc), total(&book, AssetId::Usdc)), (btc, usdc));

    // Buys all 3 at the maker's price; the rest of the budget rests at 100.
    let events = book
        .place_order(2, AssetId::Btc, Side::Buy, OrderKind::Limit { price: 100 }, dec(500), None)
        .unwrap();
    assert!(matches!(events[0], OrderEvent::Matched { .. }));
    assert_eq!((total(&book, AssetId::Btc), total(&book, AssetId::Usdc)), (btc, usdc));
    assert_eq!(book.account(2).unwrap().balance(AssetId::Btc), dec(13));
    assert_eq!(book.account(1).unwrap().balance(AssetId::Usdc), dec(10_300));

    // The filled sell leaves the book; the buy rests with 200 of its budget left.
    assert!(book.order(1).is_none());
    assert_eq!(book.order(2).unwrap().amount(), dec(200));

    let events = book.cancel_order(2, 2).unwrap();
    assert_eq!(events, vec![OrderEvent::Cancelled { order_id: 2 }]);
    assert_eq!((total(&book, AssetId::Btc), total(&book, AssetId::Usdc)), (btc, usdc));
    assert_eq!(book.account(2).unwrap().balance(AssetId::Usdc), dec(9_700));
    assert!(book.orders().is_empty());
}

#[test]
fn a_refused_order_moves_nothing() {
    let mut book = book_with_two_traders();
    let before = (total(&book, AssetId::Btc), total(&book, AssetId::Usdc));
    let r = book.place_order(1, AssetId::Btc, Side::Buy, OrderKind::Limit { price: 10 }, dec(20_000), None);
    assert_eq!(r, Err(OrderBookError::Account(order_book::types::AccountError::InsufficientBalance)));
    assert_eq!((total(&book, AssetId::Btc), total(&book, AssetId::Usdc)), before);
    assert_eq!(book.account(1).unwrap().balance(AssetId::Usdc), dec(10_000));
}

#[test]
fn a_market_order_without_time_in_force_that_finds_no_maker_is_refused_and_refunded() {
    // The default time in force is good-until-cancelled, and a market order cannot
    // rest: the order is refused and its debited collateral goes back.
    let mut book = book_with_two_traders();
    let usdc = total(&book, AssetId::Usdc);
    let r = book.place_order(1, AssetId::Btc, Side::Buy, OrderKind::Market, dec(100), None);
    assert_eq!(r, Err(OrderBookError::MarketOrderCannotRest));
    assert!(book.orders().is_empty());
    assert_eq!(book.account(1).unwrap().balance(AssetId::Usdc), dec(10_000));
    assert_eq!(total(&book, AssetId::Usdc), usdc);
}

#[test]
fn order_ids_are_handed_out_in_sequence() {
    let mut book = book_with_two_traders();
    assert_eq!(
        book.place_order(1, AssetId::Usdc, Side::Buy, OrderKind::Limit { price: 10 }, dec(1), None),
        Err(OrderBookError::InvalidAsset)
    );
    let first = book.place_order(1, AssetId::Btc, Side::Buy, OrderKind::Limit { price: 10 }, dec(50), None).unwrap();
    assert_eq!(first, vec![OrderEvent::Added { order_id: 1 }]);
    assert_eq!(
        book.place_order(9, AssetId::Btc, Side::Buy, OrderKind::Limit { price: 10 }, dec(50), None),
        Err(OrderBookError::AccountNotFound)
    );
    let second = book.place_order(2, AssetId::Btc, Side::Sell, OrderKind::Limit { price: 20 }, dec(1), None).unwrap();
    assert_eq!(second, vec![OrderEvent::Added { order_id: 2 }]);
    assert_eq!(book.order(2).unwrap().id(), 2);
}

#[test]
fn bids_stay_below_asks() {
    let mut book = book_with_two_traders();
    book.place_order(1, AssetId::Btc, Side::Sell, OrderKind::Limit { price: 100 }, dec(1), None).unwrap();
    book.place_order(1, AssetId::Btc, Side::Sell, OrderKind::Limit { price: 120 }, dec(1), None).unwrap();
    // Crosses the ask at 100, then rests what is left at 110, below the ask at 120.
    book.place_order(2, AssetId::Btc, Side::Buy, OrderKind::Limit { price: 110 }, dec(300), None).unwrap();
    assert_eq!(book.buys.best_price(), Some(110));
    assert_eq!(book.sells.best_price(), Some(120));
    assert_eq!(book.best_bid(), Some(110));
    assert_eq!(book.best_ask(), Some(120));
    assert!(book.best_bid().unwrap() < book.best_ask().unwrap());
}

#[test]
fn the_engine_never_supports_the_stable_asset() {
    let mut engine = MatchEngine::new([AssetId::Usdc, AssetId::Btc]);
    assert!(!engine.supports_asset(AssetId::Usdc));
    engine.remove_asset(AssetId::Btc);
    engine.add_asset(AssetId::Usdc);
    assert!(!engine.supports_asset(AssetId::Usdc));
    assert!(!engine.supports_asset(AssetId::Btc));
    engine.add_asset(AssetId::Btc);
    assert!(engine.supports_asset(AssetId::Btc));
}

#[test]
fn settling_never_leaves_a_negative_balance() {
    let mut account = Account::new(1, "a", vec![(AssetId::Usdc, dec(5))]).unwrap();
    let lot = AssetId::Usdc.min_amount();
    assert_eq!(lot.mantissa(), 1);
    assert_eq!(lot.scale(), 6);
    // 5 - 5.000001 would be negative: the balance stops at zero and 0.000001 is left over.
    let rest = account.saturating_settle(AssetId::Usdc, Amount::new(-5_000_001, 6));
    assert_eq!(account.balance(AssetId::Usdc), Amount::zero());
    assert_eq!(rest, Amount::new(-1, 6));
    assert!(account.try_settle(AssetId::Usdc, Amount::new(-1, 6)).is_err());
    assert_eq!(account.balance(AssetId::Usdc), Amount::zero());
}

#[test]
fn open_orders_follow_the_book() {
    let mut book = book_with_two_traders();
    book.place_order(1, AssetId::Btc, Side::Sell, OrderKind::Limit { price: 100 }, dec(2), None).unwrap();
    assert!(book.account(1).unwrap().open_orders().contains(&1));

    let events = book
        .place_order(2, AssetId::Btc, Side::Buy, OrderKind::Limit { price: 100 }, dec(100), Some(Tif::GoodUntilCancelled))
        .unwrap();
    assert_eq!(events.last(), Some(&OrderEvent::Filled { order_id: 2 }));
    assert!(book.account(2).unwrap().open_orders().is_empty());
    assert_eq!(book.order(1).unwrap().amount(), dec(1));
    assert!(book.account(1).unwrap().open_orders().contains(&1));

    book.cancel_order(1, 1).unwrap();
    assert!(book.account(1).unwrap().open_orders().is_empty());
    assert!(book.orders().is_empty());
    assert_eq!(book.cancel_order(1, 1), Err(OrderBookError::OrderNotFound));
}

#[test]
fn only_good_until_cancelled_limit_orders_rest() {
    let mut book = book_with_two_traders();
    // Nothing to meet: the immediate-or-cancel limit and the market order leave nothing behind.
    book.place_order(1, AssetId::Btc, Side::Buy, OrderKind::Limit { price: 10 }, dec(50), Some(Tif::ImmediateOrCancel))
        .unwrap();
    assert!(book.order(1).is_none());
    book.place_order(1, AssetId::Btc, Side::Sell, OrderKind::Market, dec(1), Some(Tif::ImmediateOrCancel)).unwrap();
    assert!(book.order(2).is_none());
    assert!(book.orders().is_empty());
    // The default time in force rests a limit order as good-until-cancelled.
    book.place_order(1, AssetId::Btc, Side::Buy, OrderKind::Limit { price: 10 }, dec(50), None).unwrap();
    assert_eq!(book.order(3).unwrap().tif(), Tif::GoodUntilCancelled);
    assert_eq!(book.account(1).unwrap().balance(AssetId::Usdc), dec(9_950));
}

#[test]
fn a_market_order_without_time_in_force_keeps_its_trades_and_gets_its_rest_back() {
    let mut book = book_with_two_traders();
    let before = (total(&book, AssetId::Btc), total(&book, AssetId::Usdc));
    book.place_order(1, AssetId::Btc, Side::Sell, OrderKind::Limit { price: 100 }, dec(2), None).unwrap();
    // Buys the 2 on offer for 200; the remaining 300 cannot rest and is refunded.
    let r = book.place_order(2, AssetId::Btc, Side::Buy, OrderKind::Market, dec(500), None);
    assert_eq!(r, Err(OrderBookError::MarketOrderCannotRest));
    assert_eq!(book.account(2).unwrap().balance(AssetId::Btc), dec(12));
    assert_eq!(book.account(2).unwrap().balance(AssetId::Usdc), dec(9_800));
    assert!(book.orders().is_empty());
    assert_eq!((total(&book, AssetId::Btc), total(&book, AssetId::Usdc)), before);
}

#[test]
fn cancelling_an_order_that_did_not_match_undoes_its_placement() {
    let mut book = book_with_two_traders();
    book.place_order(2, AssetId::Btc, Side::Sell, OrderKind::Limit { price: 120 }, dec(1), None).unwrap();
    let before_orders = book.orders().len();
    let before_usdc = book.account(1).unwrap().balance(AssetId::Usdc);
    let events = book.place_order(1, AssetId::Btc, Side::Buy, OrderKind::Limit { price: 100 }, dec(250), None).unwrap();
    assert_eq!(events, vec![OrderEvent::Added { order_id: 2 }]);
    assert_eq!(book.best_bid(), Some(100));
    assert_eq!(book.cancel_order(1, 2), Ok(vec![OrderEvent::Cancelled { order_id: 2 }]));
    assert_eq!(book.orders().len(), before_orders);
    assert_eq!(book.account(1).unwrap().balance(AssetId::Usdc), before_usdc);
    assert!(book.account(1).unwrap().open_orders().is_empty());
    assert_eq!(book.best_bid(), None);
    assert_eq!(book.best_ask(), Some(120));
    // The id is not handed out again.
    let next = book.place_order(1, AssetId::Btc, Side::Buy, OrderKind::Limit { price: 90 }, dec(9), None).unwrap();
    assert_eq!(next, vec![OrderEvent::Added { order_id: 3 }]);
}

#[test]
fn the_best_price_follows_adds_and_removes() {
    let mut book = book_with_two_traders();
    book.place_order(1, AssetId::Btc, Side::Buy, OrderKind::Limit { price: 90 }, dec(90), None).unwrap();
    assert_eq!(book.best_bid(), Some(90));
    book.place_order(1, AssetId::Btc, Side::Buy, OrderKind::Limit { price: 95 }, dec(95), None).unwrap();
    assert_eq!(book.best_bid(), Some(95));
    book.place_order(2, AssetId::Btc, Side::Buy, OrderKind::Limit { price: 80 }, dec(80), None).unwrap();
    assert_eq!(book.best_bid(), Some(95));
    // Taking an order off a level that is not the best keeps the best.
    book.cancel_order(1, 1).unwrap();
    assert_eq!(book.best_bid(), Some(95));
    // Emptying the best level falls back to the next one.
    book.cancel_order(1, 2).unwrap();
    assert_eq!(book.best_bid(), Some(80));
}
