//! Names, assets, the account summary, and single orders and trades.

use order_book::types::{Account, AccountInfo, Amount, Asset, AssetId, Order, OrderKind, Side, Tif, Vanity};
use order_book::match_engine::trade_from_capacity;

fn dec(value: i64) -> Amount {
    Amount::from(value)
}

#[test]
fn vanity_keeps_the_bytes_of_its_name() {
    let from_str = Vanity::from("alice");
    assert_eq!(from_str.as_bytes(), b"alice");
    let from_string = Vanity::from(String::from("bob"));
    assert_eq!(from_string.clone().into_bytes(), b"bob".to_vec());
    let from_vec = Vanity::new(vec![0x63u8, 0x61, 0x74]);
    assert_eq!(from_vec.into_string().unwrap(), "cat");
    assert_eq!(String::try_from(from_string).unwrap(), "bob");
}

#[test]
fn vanity_shows_its_name_with_invalid_bytes_replaced() {
    assert_eq!(Vanity::from("dave").to_string(), "dave");
    assert_eq!(Vanity::from(vec![0x61u8, 0xff, 0x62]).to_string(), "a\u{fffd}b");
}

#[test]
fn vanity_with_invalid_utf8_is_no_string() {
    let v = Vanity::from(vec![0xffu8, 0xfe]);
    assert!(v.clone().into_string().is_err());
    assert!(String::try_from(v).is_err());
}

#[test]
fn asset_reports_its_decimals_and_smallest_amount() {
    let usdc = Asset::new(AssetId::Usdc, "USD Coin");
    assert_eq!(usdc.id(), AssetId::Usdc);
    assert_eq!(usdc.name().as_bytes(), b"USD Coin");
    assert_eq!(usdc.decimals(), 6);
    assert_eq!(usdc.min_amount(), Amount::new(1, 6));
    let btc = Asset::new(AssetId::Btc, String::from("Bitcoin"));
    assert_eq!(btc.decimals(), 8);
    assert_eq!(btc.min_amount(), Amount::new(1, 8));
    assert_eq!(AssetId::Btc.as_str(), "btc");
    assert_eq!(u64::from(AssetId::Btc), 1);
}

#[test]
fn account_info_adds_order_amounts_to_the_totals_of_their_asset() {
    let mut account = Account::new(7, "carol", vec![(AssetId::Btc, dec(2)), (AssetId::Usdc, dec(500))]).unwrap();
    account.register_open_order(3);
    let orders = vec![
        Order::new(3, 7, AssetId::Btc, Side::Sell, OrderKind::Limit { price: 100 }, dec(1), Tif::GoodUntilCancelled),
        Order::new(4, 7, AssetId::Btc, Side::Sell, OrderKind::Limit { price: 110 }, Amount::new(5, 1), Tif::GoodUntilCancelled),
    ];
    let info = AccountInfo::new(&account, &orders);
    assert_eq!(info.id(), 7);
    assert_eq!(info.name().as_bytes(), b"carol");
    assert_eq!(info.total_balances().get(&1), Some(&Amount::new(35, 1)));
    assert_eq!(info.total_balances().get(&0), Some(&dec(500)));
    assert_eq!(info.free_balance().get(&1), Some(&dec(2)));
    assert!(info.orders().contains(&3));
    assert_eq!(info.orders().len(), 1);
}

#[test]
fn reducing_an_order_to_exactly_nothing_keeps_the_scale_of_the_difference() {
    let mut o = Order::new(1, 1, AssetId::Btc, Side::Buy, OrderKind::Limit { price: 1 }, Amount::new(100, 2), Tif::GoodUntilCancelled);
    o.reduce_amount_saturating(dec(1));
    assert_eq!(o.amount().mantissa(), 0);
    assert_eq!(o.amount().scale(), 2);
    let mut p = Order::new(2, 1, AssetId::Btc, Side::Buy, OrderKind::Limit { price: 1 }, Amount::new(100, 2), Tif::GoodUntilCancelled);
    p.reduce_amount_saturating(dec(3));
    assert_eq!(p.amount().mantissa(), 0);
    assert_eq!(p.amount().scale(), 0);
    p.reduce_amount_saturating(Amount::zero());
    assert_eq!(p.amount(), Amount::zero());
}

#[test]
fn trade_from_capacity_sizes_the_trade_from_the_given_capacity() {
    let mut buy = Order::new(1, 1, AssetId::Btc, Side::Buy, OrderKind::Limit { price: 100 }, dec(250), Tif::GoodUntilCancelled);
    let mut sell = Order::new(2, 2, AssetId::Btc, Side::Sell, OrderKind::Limit { price: 100 }, dec(3), Tif::GoodUntilCancelled);
    let r = trade_from_capacity(&mut buy, &mut sell, 100, Amount::new(25, 1));
    assert_eq!(r.amount_traded, Amount::new(25, 1));
    assert_eq!(r.buyer_base_received, Amount::new(25, 1));
    assert_eq!(r.seller_stable_received, dec(250));
    assert_eq!(buy.amount(), Amount::zero());
    assert_eq!(sell.amount(), Amount::new(5, 1));
    assert!(r.buy_order_filled);
    assert!(!r.sell_order_filled);
    // A capacity above the sell size trades the whole sell.
    let mut buy2 = Order::new(3, 1, AssetId::Btc, Side::Buy, OrderKind::Limit { price: 100 }, dec(1_000), Tif::GoodUntilCancelled);
    let mut sell2 = Order::new(4, 2, AssetId::Btc, Side::Sell, OrderKind::Limit { price: 100 }, dec(3), Tif::GoodUntilCancelled);
    let r2 = trade_from_capacity(&mut buy2, &mut sell2, 100, dec(10));
    assert_eq!(r2.amount_traded, dec(3));
    assert_eq!(buy2.amount(), dec(700));
    assert!(r2.sell_order_filled);
}
