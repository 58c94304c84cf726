//! Pricing and sizing of one trade between a resting maker and an incoming taker.
use crate::account::copy_id_set;
use crate::amount::{
    decimal_div, decimal_from_u64, decimal_lt, decimal_mul, decimal_product, decimal_quotient, difference_in_range,
    difference_surely_in_range, lemma_integer_value, mantissa_bound, one, product_in_range, product_surely_in_range,
    within_range, Amount,
};
use crate::types::{
    reduced_amount, AssetId, Order, OrderId, OrderKind, Price, Side, STABLE_ASSET_ID,
};
use std::collections::HashSet;
use vstd::prelude::*;

verus! {

/// What one match moved, and whether it finished either order.
#[derive(Debug, Clone, Copy, PartialEq, Eq)]
pub struct MatchResult {
    pub amount_traded: Amount,
    /// Base size credited to the buyer's account for this hop.
    pub buyer_base_received: Amount,
    /// Quote (stable) credited to the seller's account for this hop.
    pub seller_stable_received: Amount,
    pub buy_order_filled: bool,
    pub sell_order_filled: bool,
}

#[derive(Debug, Clone, Copy, PartialEq, Eq, Structural)]
pub enum MatchEngineError {
    InvalidAsset,
    OrderPriceMismatch,
    InvalidOrderSide,
}

#[derive(Debug, Clone, PartialEq, Eq)]
pub enum MatchEngineEvent {
    OrderMatched(OrderId, OrderId, MatchResult),
}

/// Prices and sizes trades of the non-stable assets it supports against the stable asset.
#[derive(Debug, PartialEq, Eq)]
pub struct MatchEngine {
    supported_asset: HashSet<u64>,
}

impl Clone for MatchEngine {
    fn clone(&self) -> (r: MatchEngine)
        ensures
            r.assets() == self.assets(),
    {
        proof {
            use_type_invariant(self);
        }
        MatchEngine { supported_asset: copy_id_set(&self.supported_asset) }
    }
}

/// The order's limit price, if it is a limit order.
pub open spec fn limit_price_of(order: Order) -> Option<Price> {
    match order.kind() {
        OrderKind::Limit { price } => Some(price),
        OrderKind::Market => None,
    }
}

/// The taker accepts the maker's price: a limit buy at or above it, a limit sell at
/// or below it, or any market taker.
pub open spec fn crosses(maker: Order, taker: Order, maker_price: Price) -> bool {
    match (maker.side(), taker.kind()) {
        (Side::Sell, OrderKind::Limit { price }) => price >= maker_price,
        (Side::Buy, OrderKind::Limit { price }) => price <= maker_price,
        (_, OrderKind::Market) => true,
    }
}

/// Both orders trade the same supported, non-stable asset.
pub open spec fn same_supported_asset(assets: Set<AssetId>, maker: Order, taker: Order) -> bool {
    &&& maker.asset_id() == taker.asset_id()
    &&& maker.asset_id() != STABLE_ASSET_ID
    &&& assets.contains(maker.asset_id())
}

/// The smaller of two amounts; the first when they are equal (as `Ord::min`).
pub open spec fn min_amount_of(a: Amount, b: Amount) -> Amount {
    if a.value() <= b.value() {
        a
    } else {
        b
    }
}

/// The trade against a sell order at `price` when the buyer can afford
/// `capacity` base: base traded (the smaller of the capacity and the sell size,
/// as `Decimal::min` picks it) and stable paid.
pub open spec fn trade_sizes_from(capacity: Amount, sell: Order, price: Price) -> (Amount, Amount) {
    let traded = min_amount_of(capacity, sell.amount());
    (traded, decimal_product(traded, Amount::integer(price as int)))
}

/// The trade between a buy and a sell order at `price`: base traded, stable paid.
pub open spec fn trade_sizes(buy: Order, sell: Order, price: Price) -> (Amount, Amount) {
    trade_sizes_from(decimal_quotient(buy.amount(), Amount::integer(price as int)), sell, price)
}

/// What `trade_from_capacity` returns for these orders and this capacity.
pub open spec fn trade_result_from(buy: Order, sell: Order, price: Price, capacity: Amount) -> MatchResult {
    let (traded, stable) = trade_sizes_from(capacity, sell, price);
    MatchResult {
        amount_traded: traded,
        buyer_base_received: traded,
        seller_stable_received: stable,
        buy_order_filled: reduced_amount(buy.amount(), stable).value() <= STABLE_ASSET_ID.min_amount_value(),
        sell_order_filled: reduced_amount(sell.amount(), traded).value() <= sell.asset_id().min_amount_value(),
    }
}

/// The outcome of `match_orders`: the result and the maker and taker afterwards.
pub open spec fn match_outcome(assets: Set<AssetId>, maker: Order, taker: Order) -> (Result<
    MatchResult,
    MatchEngineError,
>, Order, Order) {
    if !same_supported_asset(assets, maker, taker) {
        (Err(MatchEngineError::InvalidAsset), maker, taker)
    } else if maker.side() == taker.side() {
        (Err(MatchEngineError::InvalidOrderSide), maker, taker)
    } else {
        match limit_price_of(maker) {
            None => (Err(MatchEngineError::OrderPriceMismatch), maker, taker),
            Some(price) => if !crosses(maker, taker, price) {
                (Err(MatchEngineError::OrderPriceMismatch), maker, taker)
            } else {
                let maker_buys = maker.side() == Side::Buy;
                let buy = if maker_buys { maker } else { taker };
                let sell = if maker_buys { taker } else { maker };
                let (traded, stable) = trade_sizes(buy, sell, price);
                let new_buy = buy.with_amount(reduced_amount(buy.amount(), stable));
                let new_sell = sell.with_amount(reduced_amount(sell.amount(), traded));
                let result = MatchResult {
                    amount_traded: traded,
                    buyer_base_received: traded,
                    seller_stable_received: stable,
                    buy_order_filled: new_buy.amount().value() <= STABLE_ASSET_ID.min_amount_value(),
                    sell_order_filled: new_sell.amount().value() <= sell.asset_id().min_amount_value(),
                };
                if maker_buys {
                    (Ok(result), new_buy, new_sell)
                } else {
                    (Ok(result), new_sell, new_buy)
                }
            },
        }
    }
}

/// `match_orders` on these orders stays within what `rust_decimal` can compute:
/// a non-zero maker price, a capacity and a stable amount within range, and
/// reductions within range.
pub open spec fn match_is_computable(assets: Set<AssetId>, maker: Order, taker: Order) -> bool {
    if !same_supported_asset(assets, maker, taker) || maker.side() == taker.side() {
        true
    } else {
        match limit_price_of(maker) {
            None => true,
            Some(price) => if !crosses(maker, taker, price) {
                true
            } else {
                let maker_buys = maker.side() == Side::Buy;
                let buy = if maker_buys { maker } else { taker };
                let sell = if maker_buys { taker } else { maker };
                let (traded, stable) = trade_sizes(buy, sell, price);
                &&& price > 0
                &&& -(mantissa_bound() - 1) * price * one() <= buy.amount().value()
                    <= (mantissa_bound() - 1) * price * one()
                &&& within_range(traded.value() * price)
                &&& stable.value() > 0 ==> within_range(buy.amount().value() - stable.value())
                &&& traded.value() > 0 ==> within_range(sell.amount().value() - traded.value())
            },
        }
    }
}

/// What `try_match_orders` asks before it matches: the trade's sizes surely
/// stay within range, as the mantissa tests of `amount` tell.
pub open spec fn match_fits_spec(assets: Set<AssetId>, maker: Order, taker: Order) -> bool {
    if !same_supported_asset(assets, maker, taker) || maker.side() == taker.side() {
        true
    } else {
        match limit_price_of(maker) {
            None => true,
            Some(price) => if !crosses(maker, taker, price) {
                true
            } else if price == 0 {
                false
            } else {
                let maker_buys = maker.side() == Side::Buy;
                let buy = if maker_buys { maker } else { taker };
                let sell = if maker_buys { taker } else { maker };
                let (traded, stable) = trade_sizes(buy, sell, price);
                &&& product_surely_in_range(traded, price)
                &&& stable.value() > 0 ==> difference_surely_in_range(buy.amount(), stable)
                &&& traded.value() > 0 ==> difference_surely_in_range(sell.amount(), traded)
            },
        }
    }
}

impl MatchEngine {
    /// The supported assets.
    pub closed spec fn assets(&self) -> Set<AssetId> {
        Set::new(|a: AssetId| self.supported_asset@.contains(a.code()))
    }

    /// The stable asset is never supported: it is what the others trade against.
    #[verifier::type_invariant]
    closed spec fn stable_not_supported(self) -> bool {
        !self.supported_asset@.contains(STABLE_ASSET_ID.code())
    }

    /// An engine for the given assets; the stable asset is left out.
    pub fn new<const N: usize>(supported_asset: [AssetId; N]) -> (r: Self)
        ensures
            forall|a: AssetId|
                #![trigger r.assets().contains(a)]
                r.assets().contains(a) <==> (a != STABLE_ASSET_ID && supported_asset@.contains(a)),
            !r.assets().contains(STABLE_ASSET_ID),
    {
        let mut set: HashSet<u64> = HashSet::new();
        let mut i: usize = 0;
        while i < N
            invariant
                i <= N,
                N == supported_asset@.len(),
                forall|a: AssetId|
                    #![trigger set@.contains(a.code())]
                    set@.contains(a.code()) <==> (a != STABLE_ASSET_ID && supported_asset@.take(
                        i as int,
                    ).contains(a)),
            decreases N - i,
        {
            let asset = supported_asset[i];
            assert(supported_asset@.take(i + 1) == supported_asset@.take(i as int).push(asset));
            let ghost prev = set@;
            if asset != STABLE_ASSET_ID {
                set.insert(u64::from(asset));
            }
            assert(asset != STABLE_ASSET_ID ==> set@ == prev.insert(asset.code()));
            assert(asset == STABLE_ASSET_ID ==> set@ == prev);
            proof {
                assert forall|a: AssetId| #![trigger set@.contains(a.code())]
                    set@.contains(a.code()) <==> (a != STABLE_ASSET_ID && supported_asset@.take(i + 1).contains(a)) by {
                    crate::types::lemma_asset_code_injective(a, asset);
                    let t0 = supported_asset@.take(i as int);
                    let t1 = supported_asset@.take(i + 1);
                    assert(prev.contains(a.code()) <==> (a != STABLE_ASSET_ID && t0.contains(a)));
                    if t1.contains(a) && a != asset {
                        let j = choose|j: int| 0 <= j < t1.len() && #[trigger] t1[j] == a;
                        assert(t0[j] == a);
                    }
                    if t0.contains(a) {
                        let j = choose|j: int| 0 <= j < t0.len() && #[trigger] t0[j] == a;
                        assert(t1[j] == a);
                    }
                    if a == asset {
                        assert(t1[i as int] == a);
                    }
                    assert(t1.contains(a) <==> (t0.contains(a) || a == asset));
                }
            }
            i = i + 1;
        }
        assert(supported_asset@.take(N as int) == supported_asset@);
        assert(!set@.contains(STABLE_ASSET_ID.code()));
        MatchEngine { supported_asset: set }
    }

    /// Supports `asset` from now on, unless it is the stable asset.
    pub fn add_asset(&mut self, asset: AssetId)
        ensures
            final(self).assets() == if asset == STABLE_ASSET_ID {
                old(self).assets()
            } else {
                old(self).assets().insert(asset)
            },
            !final(self).assets().contains(STABLE_ASSET_ID),
    {
        proof {
            use_type_invariant(&*self);
            crate::types::lemma_asset_code_injective(asset, STABLE_ASSET_ID);
        }
        if asset != STABLE_ASSET_ID {
            let mut set: HashSet<u64> = HashSet::new();
            std::mem::swap(&mut set, &mut self.supported_asset);
            set.insert(u64::from(asset));
            self.supported_asset = set;
            proof {
                assert forall|a: AssetId| self.assets().contains(a) <==> old(self).assets().insert(asset).contains(a) by {
                    crate::types::lemma_asset_code_injective(a, asset);
                }
                assert(self.assets() == old(self).assets().insert(asset));
            }
        }
    }

    /// Stops supporting `asset`.
    pub fn remove_asset(&mut self, asset: AssetId)
        ensures
            final(self).assets() == old(self).assets().remove(asset),
            !final(self).assets().contains(STABLE_ASSET_ID),
    {
        proof {
            use_type_invariant(&*self);
        }
        let mut set: HashSet<u64> = HashSet::new();
        std::mem::swap(&mut set, &mut self.supported_asset);
        set.remove(&u64::from(asset));
        self.supported_asset = set;
        proof {
            assert forall|a: AssetId| self.assets().contains(a) <==> old(self).assets().remove(asset).contains(a) by {
                crate::types::lemma_asset_code_injective(a, asset);
            }
            assert(self.assets() == old(self).assets().remove(asset));
        }
    }

    pub fn supports_asset(&self, asset: AssetId) -> (r: bool)
        ensures
            r == self.assets().contains(asset),
            asset == STABLE_ASSET_ID ==> !r,
    {
        proof {
            use_type_invariant(self);
        }
        self.supported_asset.contains(&u64::from(asset))
    }
}


impl MatchEngine {
    /// Prices and sizes the trade, reduces both orders' working amounts (buy: the
    /// stable spent, sell: the base traded), and returns what to credit to each party.
    pub fn match_orders(&self, maker: &mut Order, taker: &mut Order) -> (r: Result<MatchResult, MatchEngineError>)
        requires
            match_is_computable(self.assets(), *old(maker), *old(taker)),
        ensures
            (r, *final(maker), *final(taker)) == match_outcome(self.assets(), *old(maker), *old(taker)),
    {
        if !self.is_supported_asset(maker, taker) {
            return Err(MatchEngineError::InvalidAsset);
        }
        if maker.side() == taker.side() {
            return Err(MatchEngineError::InvalidOrderSide);
        }
        let maker_price = match limit_price(maker) {
            Some(price) => price,
            None => return Err(MatchEngineError::OrderPriceMismatch),
        };
        if !can_match_at_maker_price(maker, taker, maker_price) {
            return Err(MatchEngineError::OrderPriceMismatch);
        }
        match (maker.side(), taker.side()) {
            (Side::Buy, Side::Sell) => Ok(execute_trade(maker, taker, maker_price)),
            (Side::Sell, Side::Buy) => Ok(execute_trade(taker, maker, maker_price)),
            _ => Err(MatchEngineError::InvalidOrderSide),
        }
    }

    /// Whether `match_orders` on these orders surely stays within what
    /// `rust_decimal` computes without overflowing. `false` is conservative: the
    /// sizes may still have been within range.
    pub(crate) fn match_fits(&self, maker: &Order, taker: &Order) -> (r: bool)
        ensures
            r == match_fits_spec(self.assets(), *maker, *taker),
            r ==> match_is_computable(self.assets(), *maker, *taker),
    {
        if !self.is_supported_asset(maker, taker) || maker.side() == taker.side() {
            return true;
        }
        let price = match limit_price(maker) {
            Some(p) => p,
            None => return true,
        };
        if !can_match_at_maker_price(maker, taker, price) {
            return true;
        }
        if price == 0 {
            return false;
        }
        let (buy, sell) = if maker.side() == Side::Buy {
            (maker, taker)
        } else {
            (taker, maker)
        };
        let buy_amount = buy.amount();
        proof {
            use_type_invariant(&buy_amount);
            crate::amount::lemma_value_bounds(buy_amount, mantissa_bound() - 1);
            assert((mantissa_bound() - 1) * one() <= (mantissa_bound() - 1) * price * one()) by (nonlinear_arith)
                requires
                    price >= 1,
                    one() > 0,
                    mantissa_bound() > 1,
            ;
            assert(-(mantissa_bound() - 1) * price * one() == -((mantissa_bound() - 1) * price * one())) by (nonlinear_arith);
        }
        let capacity = buy_capacity_at_price(buy, price);
        let sell_amount = sell.amount();
        let traded = if decimal_lt(sell_amount, capacity) {
            sell_amount
        } else {
            capacity
        };
        if !product_in_range(traded, price) {
            return false;
        }
        let price_amount = decimal_from_u64(price);
        proof {
            lemma_integer_value(price as int);
            let t = traded.value();
            assert(-crate::amount::max_value() * one() <= t * price_amount.value() <= crate::amount::max_value() * one())
                by (nonlinear_arith)
                requires
                    price_amount.value() == price * one(),
                    -crate::amount::max_value() <= t * price <= crate::amount::max_value(),
                    one() > 0,
            ;
        }
        let stable = decimal_mul(traded, price_amount);
        let zero = Amount::zero();
        (!decimal_lt(zero, stable) || difference_in_range(buy_amount, stable)) && (!decimal_lt(zero, traded)
            || difference_in_range(sell_amount, traded))
    }

    /// `match_orders`, where its sizes surely stay within range; otherwise `None`,
    /// with both orders unchanged.
    pub fn try_match_orders(&self, maker: &mut Order, taker: &mut Order) -> (r: Option<
        Result<MatchResult, MatchEngineError>,
    >)
        ensures
            r is None <==> !match_fits_spec(self.assets(), *old(maker), *old(taker)),
            r is None ==> *final(maker) == *old(maker) && *final(taker) == *old(taker),
            r matches Some(res) ==> (res, *final(maker), *final(taker)) == match_outcome(
                self.assets(),
                *old(maker),
                *old(taker),
            ),
    {
        if self.match_fits(maker, taker) {
            Some(self.match_orders(maker, taker))
        } else {
            None
        }
    }

    pub fn is_supported_asset(&self, maker: &Order, taker: &Order) -> (r: bool)
        ensures
            r == same_supported_asset(self.assets(), *maker, *taker),
    {
        maker.asset_id() == taker.asset_id() && maker.asset_id() != STABLE_ASSET_ID
            && self.supported_asset.contains(&u64::from(maker.asset_id()))
    }
}

/// Trades `buy` against `sell` at `price`: the buyer can afford `amount / price`
/// base, the trade is the smaller of that and the sell size.
fn execute_trade(buy: &mut Order, sell: &mut Order, price: Price) -> (r: MatchResult)
    requires
        price > 0,
        -(mantissa_bound() - 1) * price * one() <= old(buy).amount().value() <= (mantissa_bound() - 1) * price * one(),
        ({
            let (traded, stable) = trade_sizes(*old(buy), *old(sell), price);
            &&& within_range(traded.value() * price)
            &&& stable.value() > 0 ==> within_range(old(buy).amount().value() - stable.value())
            &&& traded.value() > 0 ==> within_range(old(sell).amount().value() - traded.value())
        }),
    ensures
        ({
            let (traded, stable) = trade_sizes(*old(buy), *old(sell), price);
            &&& *final(buy) == old(buy).with_amount(reduced_amount(old(buy).amount(), stable))
            &&& *final(sell) == old(sell).with_amount(reduced_amount(old(sell).amount(), traded))
            &&& r == (MatchResult {
                amount_traded: traded,
                buyer_base_received: traded,
                seller_stable_received: stable,
                buy_order_filled: final(buy).amount().value() <= STABLE_ASSET_ID.min_amount_value(),
                sell_order_filled: final(sell).amount().value() <= old(sell).asset_id().min_amount_value(),
            })
        }),
{
    let capacity = buy_capacity_at_price(buy, price);
    trade_from_capacity(buy, sell, price, capacity)
}

/// Trades `buy` against `sell` at `price` when the buyer can afford `capacity`
/// base: the trade is the smaller of the capacity and the sell size, the buyer
/// pays it times the price; both orders' working amounts go down by what they
/// give, floored at zero.
pub fn trade_from_capacity(buy: &mut Order, sell: &mut Order, price: Price, capacity: Amount) -> (r: MatchResult)
    requires
        ({
            let (traded, stable) = trade_sizes_from(capacity, *old(sell), price);
            &&& within_range(traded.value() * price)
            &&& stable.value() > 0 ==> within_range(old(buy).amount().value() - stable.value())
            &&& traded.value() > 0 ==> within_range(old(sell).amount().value() - traded.value())
        }),
    ensures
        ({
            let (traded, stable) = trade_sizes_from(capacity, *old(sell), price);
            &&& *final(buy) == old(buy).with_amount(reduced_amount(old(buy).amount(), stable))
            &&& *final(sell) == old(sell).with_amount(reduced_amount(old(sell).amount(), traded))
            &&& r == trade_result_from(*old(buy), *old(sell), price, capacity)
        }),
{
    let price_amount = decimal_from_u64(price);
    proof {
        lemma_integer_value(price as int);
        assert(price_amount.value() == price * one());
    }
    let sell_amount = sell.amount();
    let traded = if decimal_lt(sell_amount, capacity) {
        sell_amount
    } else {
        capacity
    };
    proof {
        let t = traded.value();
        assert(-crate::amount::max_value() * one() <= t * price_amount.value() <= crate::amount::max_value() * one())
            by (nonlinear_arith)
            requires
                price_amount.value() == price * one(),
                -crate::amount::max_value() <= t * price <= crate::amount::max_value(),
                one() > 0,
        ;
    }
    let stable = decimal_mul(traded, price_amount);
    buy.reduce_amount_saturating(stable);
    sell.reduce_amount_saturating(traded);
    let min_stable = STABLE_ASSET_ID.min_amount();
    let min_traded = sell.asset_id().min_amount();
    MatchResult {
        amount_traded: traded,
        buyer_base_received: traded,
        seller_stable_received: stable,
        buy_order_filled: !decimal_lt(min_stable, buy.amount()),
        sell_order_filled: !decimal_lt(min_traded, sell.amount()),
    }
}

/// The taker accepts the maker's price.
pub fn can_match_at_maker_price(maker: &Order, taker: &Order, maker_price: Price) -> (r: bool)
    ensures
        r == crosses(*maker, *taker, maker_price),
{
    match (maker.side(), taker.kind()) {
        (Side::Sell, OrderKind::Limit { price }) => price >= maker_price,
        (Side::Buy, OrderKind::Limit { price }) => price <= maker_price,
        (_, OrderKind::Market) => true,
    }
}

/// The price of a limit order; none for a market order.
pub fn limit_price(order: &Order) -> (r: Option<Price>)
    ensures
        r == limit_price_of(*order),
{
    match order.kind() {
        OrderKind::Limit { price } => Some(price),
        OrderKind::Market => None,
    }
}

/// How much base the order's stable budget buys at `price`.
fn buy_capacity_at_price(order: &Order, price: Price) -> (r: Amount)
    requires
        price > 0,
        -(mantissa_bound() - 1) * price * one() <= order.amount().value() <= (mantissa_bound() - 1) * price * one(),
    ensures
        r == decimal_quotient(order.amount(), Amount::integer(price as int)),
{
    let p = decimal_from_u64(price);
    proof {
        lemma_integer_value(price as int);
        assert(price * one() > 0) by (nonlinear_arith)
            requires
                price > 0,
                one() > 0,
        ;
        assert((mantissa_bound() - 1) * p.value() == (mantissa_bound() - 1) * price * one()) by (nonlinear_arith)
            requires
                p.value() == price * one(),
        ;
        assert(-(mantissa_bound() - 1) * price * one() == -((mantissa_bound() - 1) * price * one())) by (nonlinear_arith);
    }
    decimal_div(order.amount(), p)
}

} // verus!
