//! What the book holds of each asset: every account's balance plus the
//! collateral locked in resting orders, and how each operation moves it.
use crate::account::balance_of;
use crate::amount::{decimal_sum, Amount};
use crate::laws::{book_wf, fresh_taker, lemma_debited_wf, lemma_step_keeps_shape, resting_wf, same_order_but_amount};
use crate::match_engine::{match_outcome, MatchResult};
use crate::order_book::{
    cancellation_outcome, debited, lemma_matching_computable_some, matching_computable, placed_order, placement_computable,
    placement_error, placement_outcome, processing_outcome,
    collateral_asset_of, is_filled, match_step, matching, next_maker, registered, released, resting_copy, settle_in_book,
    settled_account, settlement, unregistered, with_resting, without_resting, BookState, MatchStep, OrderEvent,
};
use crate::types::{
    levels_after_add, levels_after_remove, AccountId, AssetId, Order, OrderId, OrderKind, Side, Tif, STABLE_ASSET_ID,
};
use vstd::prelude::*;

verus! {

/// The sum of `f` over a finite set of keys.
pub open spec fn sum_over<K>(keys: Set<K>, f: spec_fn(K) -> int) -> int
    decreases keys.len(),
{
    if keys.finite() && keys.len() > 0 {
        let k = keys.choose();
        f(k) + sum_over(keys.remove(k), f)
    } else {
        0
    }
}

/// Any key of a finite set can be taken out of its sum first.
pub proof fn lemma_sum_over_remove<K>(keys: Set<K>, f: spec_fn(K) -> int, k: K)
    requires
        keys.finite(),
        keys.contains(k),
    ensures
        sum_over(keys, f) == f(k) + sum_over(keys.remove(k), f),
    decreases keys.len(),
{
    let c = keys.choose();
    assert(keys.len() > 0);
    if c != k {
        let rc = keys.remove(c);
        let rk = keys.remove(k);
        lemma_sum_over_remove(rc, f, k);
        lemma_sum_over_remove(rk, f, c);
        assert(rc.remove(k) == rk.remove(c));
    }
}

/// Two functions that agree on the keys have the same sum.
pub proof fn lemma_sum_over_ext<K>(keys: Set<K>, f: spec_fn(K) -> int, g: spec_fn(K) -> int)
    requires
        keys.finite(),
        forall|k: K| #[trigger] keys.contains(k) ==> f(k) == g(k),
    ensures
        sum_over(keys, f) == sum_over(keys, g),
    decreases keys.len(),
{
    if keys.len() > 0 {
        let c = keys.choose();
        lemma_sum_over_ext(keys.remove(c), f, g);
    }
}

/// Changing the function at one key changes the sum by the difference there.
pub proof fn lemma_sum_over_update<K>(keys: Set<K>, f: spec_fn(K) -> int, g: spec_fn(K) -> int, k: K)
    requires
        keys.finite(),
        keys.contains(k),
        forall|j: K| #[trigger] keys.contains(j) && j != k ==> f(j) == g(j),
    ensures
        sum_over(keys, g) == sum_over(keys, f) - f(k) + g(k),
{
    lemma_sum_over_remove(keys, f, k);
    lemma_sum_over_remove(keys, g, k);
    lemma_sum_over_ext(keys.remove(k), f, g);
}

/// Adding a new key adds its value to the sum.
pub proof fn lemma_sum_over_insert<K>(keys: Set<K>, f: spec_fn(K) -> int, k: K)
    requires
        keys.finite(),
        !keys.contains(k),
    ensures
        sum_over(keys.insert(k), f) == sum_over(keys, f) + f(k),
{
    lemma_sum_over_remove(keys.insert(k), f, k);
    assert(keys.insert(k).remove(k) == keys);
}

/// All accounts' balances of the asset.
pub open spec fn balance_total(s: BookState, a: AssetId) -> int {
    sum_over(s.accounts.dom(), |k: AccountId| balance_of(s.accounts[k].balances, a).value())
}

/// What the order holds of the asset: its working amount when that is its
/// collateral (stable for a buy, the traded asset for a sell).
pub open spec fn lock_of(o: Order, a: AssetId) -> int {
    if collateral_asset_of(o.side(), o.asset_id()) == a {
        o.amount().value()
    } else {
        0
    }
}

/// The collateral of the asset locked in resting orders.
pub open spec fn locked_total(s: BookState, a: AssetId) -> int {
    sum_over(s.orders.dom(), |id: OrderId| lock_of(s.orders[id], a))
}

/// All of the asset the book holds: balances plus locked collateral.
pub open spec fn asset_total(s: BookState, a: AssetId) -> int {
    balance_total(s, a) + locked_total(s, a)
}

/// `rust_decimal` adds the credit to the account's balance without rounding and
/// the result is not negative, so `saturating_settle` credits all of it.
pub open spec fn settle_exact(s: BookState, k: AccountId, asset: AssetId, amount: Amount) -> bool {
    s.accounts.contains_key(k) ==> {
        let c = balance_of(s.accounts[k].balances, asset);
        &&& decimal_sum(c, amount).value() == c.value() + amount.value()
        &&& c.value() + amount.value() >= 0
    }
}

/// The refund of the order's remaining collateral is exact.
pub open spec fn release_exact(s: BookState, o: Order) -> bool {
    settle_exact(s, o.account_id(), collateral_asset_of(o.side(), o.asset_id()), o.amount())
}

/// An exact credit to an existing account adds exactly that much of its asset.
pub proof fn lemma_settle_total(s: BookState, k: AccountId, asset: AssetId, amount: Amount, a: AssetId)
    requires
        s.accounts.dom().finite(),
        settle_exact(s, k, asset, amount),
    ensures
        asset_total(settle_in_book(s, k, asset, amount), a) == asset_total(s, a) + (if s.accounts.contains_key(k)
            && a == asset {
            amount.value()
        } else {
            0
        }),
        settle_in_book(s, k, asset, amount).accounts.dom() == s.accounts.dom(),
        settle_in_book(s, k, asset, amount).orders == s.orders,
{
    let t = settle_in_book(s, k, asset, amount);
    if s.accounts.contains_key(k) {
        let old_a = s.accounts[k];
        let new_a = settled_account(old_a, asset, amount);
        assert(t.accounts == s.accounts.insert(k, new_a));
        assert(t.accounts.dom() == s.accounts.dom());
        let f = |j: AccountId| balance_of(s.accounts[j].balances, a).value();
        let g = |j: AccountId| balance_of(t.accounts[j].balances, a).value();
        crate::types::lemma_asset_code_injective(a, asset);
        lemma_sum_over_update(s.accounts.dom(), f, g, k);
        assert(sum_over(t.accounts.dom(), g) == sum_over(s.accounts.dom(), g));
    }
}

/// An exact refund gives the order's owner back what the order held.
pub proof fn lemma_released_total(s: BookState, o: Order, a: AssetId)
    requires
        s.accounts.dom().finite(),
        release_exact(s, o),
        s.accounts.contains_key(o.account_id()),
    ensures
        asset_total(released(s, o), a) == asset_total(s, a) + lock_of(o, a),
        released(s, o).accounts.dom() == s.accounts.dom(),
        released(s, o).orders == s.orders,
{
    lemma_settle_total(s, o.account_id(), collateral_asset_of(o.side(), o.asset_id()), o.amount(), a);
}

/// Two books with the same accounts, the same balances and the same orders hold
/// the same of every asset.
pub proof fn lemma_same_holdings(s: BookState, t: BookState, a: AssetId)
    requires
        s.accounts.dom().finite(),
        t.accounts.dom() == s.accounts.dom(),
        forall|k: AccountId| #[trigger] s.accounts.contains_key(k) ==> t.accounts[k].balances == s.accounts[k].balances,
        t.orders == s.orders,
    ensures
        asset_total(t, a) == asset_total(s, a),
{
    let f = |j: AccountId| balance_of(s.accounts[j].balances, a).value();
    let g = |j: AccountId| balance_of(t.accounts[j].balances, a).value();
    lemma_sum_over_ext(s.accounts.dom(), f, g);
}

/// Adding or dropping an id from an owner's open-order set moves no asset.
pub proof fn lemma_registration_total(s: BookState, k: AccountId, id: OrderId, a: AssetId)
    requires
        s.accounts.dom().finite(),
    ensures
        asset_total(registered(s, k, id), a) == asset_total(s, a),
        asset_total(unregistered(s, k, id), a) == asset_total(s, a),
        registered(s, k, id).accounts.dom() == s.accounts.dom(),
        unregistered(s, k, id).accounts.dom() == s.accounts.dom(),
        registered(s, k, id).orders == s.orders,
        unregistered(s, k, id).orders == s.orders,
{
    let r = registered(s, k, id);
    let u = unregistered(s, k, id);
    if s.accounts.contains_key(k) {
        assert(r.accounts.dom() == s.accounts.dom());
        assert(u.accounts.dom() == s.accounts.dom());
    }
    lemma_same_holdings(s, r, a);
    lemma_same_holdings(s, u, a);
}

/// Retiring a resting limit order takes what it held out of the book.
pub proof fn lemma_without_resting_total(s: BookState, m: Order, a: AssetId)
    requires
        s.accounts.dom().finite(),
        s.orders.dom().finite(),
        m.kind() is Limit,
        s.orders.contains_key(m.id()),
    ensures
        asset_total(without_resting(s, m), a) == asset_total(s, a) - lock_of(s.orders[m.id()], a),
        without_resting(s, m).accounts.dom() == s.accounts.dom(),
{
    let price = m.kind()->Limit_price;
    let s1 = match m.side() {
        Side::Buy => BookState { buys: levels_after_remove(s.buys, price, m.id()), ..s },
        Side::Sell => BookState { sells: levels_after_remove(s.sells, price, m.id()), ..s },
    };
    let s2 = BookState { orders: s1.orders.remove(m.id()), ..s1 };
    assert(without_resting(s, m) == unregistered(s2, m.account_id(), m.id()));
    lemma_registration_total(s2, m.account_id(), m.id(), a);
    let f = |id: OrderId| lock_of(s.orders[id], a);
    let g = |id: OrderId| lock_of(s2.orders[id], a);
    lemma_sum_over_remove(s.orders.dom(), f, m.id());
    assert(s2.orders.dom() == s.orders.dom().remove(m.id()));
    lemma_sum_over_ext(s2.orders.dom(), f, g);
}

/// Resting a fresh limit taker puts what it holds into the book.
pub proof fn lemma_with_resting_total(s: BookState, t: Order, a: AssetId)
    requires
        s.accounts.dom().finite(),
        s.orders.dom().finite(),
        t.kind() is Limit,
        !s.orders.contains_key(t.id()),
    ensures
        asset_total(with_resting(s, t), a) == asset_total(s, a) + lock_of(t, a),
{
    let price = t.kind()->Limit_price;
    let s1 = match t.side() {
        Side::Buy => BookState { buys: levels_after_add(s.buys, price, t.id()), ..s },
        Side::Sell => BookState { sells: levels_after_add(s.sells, price, t.id()), ..s },
    };
    let s2 = registered(s1, t.account_id(), t.id());
    lemma_registration_total(s1, t.account_id(), t.id(), a);
    let r = with_resting(s, t);
    assert(r == BookState { orders: s2.orders.insert(t.id(), resting_copy(t)), ..s2 });
    let f = |id: OrderId| lock_of(s.orders[id], a);
    let g = |id: OrderId| lock_of(r.orders[id], a);
    lemma_sum_over_insert(s.orders.dom(), g, t.id());
    lemma_sum_over_ext(s.orders.dom(), f, g);
    assert(r.orders.dom() == s.orders.dom().insert(t.id()));
    lemma_same_holdings(s2, BookState { orders: s2.orders, ..r }, a);
}

/// The trade moves exactly what is credited: the buy order loses the stable the
/// seller receives and the sell order loses the base the buyer receives.
pub open spec fn trade_exact(maker: Order, taker: Order, maker_after: Order, taker_after: Order, mr: MatchResult) -> bool {
    let maker_buys = maker.side() == Side::Buy;
    let buy = if maker_buys { maker } else { taker };
    let sell = if maker_buys { taker } else { maker };
    let buy_after = if maker_buys { maker_after } else { taker_after };
    let sell_after = if maker_buys { taker_after } else { maker_after };
    let stable = mr.seller_stable_received.value();
    let base = mr.buyer_base_received.value();
    &&& buy_after.amount().value() == buy.amount().value() - (if stable > 0 { stable } else { 0 })
    &&& sell_after.amount().value() == sell.amount().value() - (if base > 0 { base } else { 0 })
}

/// Both credits of one match are exact.
pub open spec fn settlement_exact(s: BookState, maker: Order, taker: Order, mr: MatchResult) -> bool {
    let buyer = if maker.side() == Side::Buy { maker } else { taker };
    let seller = if maker.side() == Side::Buy { taker } else { maker };
    let s1 = if mr.buyer_base_received.value() > 0 {
        settle_in_book(s, buyer.account_id(), buyer.asset_id(), mr.buyer_base_received)
    } else {
        s
    };
    &&& mr.buyer_base_received.value() > 0 ==> settle_exact(s, buyer.account_id(), buyer.asset_id(), mr.buyer_base_received)
    &&& mr.seller_stable_received.value() > 0 ==> settle_exact(s1, seller.account_id(), STABLE_ASSET_ID, mr.seller_stable_received)
}

/// Every decimal step of one pass of the matching loop is exact: the trade, both
/// credits, and the refund of a filled maker's dust.
pub open spec fn step_exact(s: BookState, taker: Order) -> bool {
    if is_filled(taker) {
        true
    } else {
        match next_maker(s, taker) {
            None => true,
            Some(maker_id) => {
                let (r, maker, t) = match_outcome(s.assets, s.orders[maker_id], taker);
                match r {
                    Ok(mr) => {
                        let (sr, s2) = settlement(s, maker, t, mr);
                        &&& trade_exact(s.orders[maker_id], taker, maker, t, mr)
                        &&& settlement_exact(s, maker, t, mr)
                        &&& (sr is Ok && is_filled(maker)) ==> release_exact(s2, maker)
                    },
                    Err(_) => true,
                }
            },
        }
    }
}

/// What one pass of the matching loop leaves: the book and the taker.
pub open spec fn step_state(s: BookState, t: Order, events: Seq<OrderEvent>) -> (BookState, Order) {
    match match_step(s, t, events) {
        MatchStep::Continue { state, taker, .. } => (state, taker),
        MatchStep::Stop { state, taker, .. } => (state, taker),
        MatchStep::Fail { state, taker, .. } => (state, taker),
    }
}

/// One exact pass of the matching loop keeps, for every asset, the book's holdings
/// plus the taker's equal; and the matching never fails on a missing account.
pub proof fn lemma_step_total(s: BookState, t: Order, events: Seq<OrderEvent>, a: AssetId)
    requires
        book_wf(s),
        fresh_taker(s, t),
        step_exact(s, t),
    ensures
        asset_total(step_state(s, t, events).0, a) + lock_of(step_state(s, t, events).1, a) == asset_total(s, a) + lock_of(t, a),
{
    lemma_step_keeps_shape(s, t, events);
    if !is_filled(t) {
        if let Some(maker_id) = next_maker(s, t) {
            crate::laws::lemma_next_maker_shape(s, t);
            let maker = s.orders[maker_id];
            assert(resting_wf(s, maker_id));
            let (r, m2, t2) = match_outcome(s.assets, maker, t);
            if let Ok(mr) = r {
                assert(same_order_but_amount(maker, m2));
                assert(same_order_but_amount(t, t2));
                let buyer = if m2.side() == Side::Buy { m2 } else { t2 };
                let seller = if m2.side() == Side::Buy { t2 } else { m2 };
                let base = mr.buyer_base_received;
                let stable = mr.seller_stable_received;
                let s1 = if base.value() > 0 { settle_in_book(s, buyer.account_id(), buyer.asset_id(), base) } else { s };
                if base.value() > 0 {
                    lemma_settle_total(s, buyer.account_id(), buyer.asset_id(), base, a);
                }
                if stable.value() > 0 {
                    lemma_settle_total(s1, seller.account_id(), STABLE_ASSET_ID, stable, a);
                }
                let (sr, s2) = settlement(s, m2, t2, mr);
                assert(sr is Ok);
                let credits = (if base.value() > 0 && a == buyer.asset_id() { base.value() } else { 0 }) + (if stable.value() > 0
                    && a == STABLE_ASSET_ID {
                    stable.value()
                } else {
                    0
                });
                assert(asset_total(s2, a) == asset_total(s, a) + credits);
                assert(lock_of(m2, a) + lock_of(t2, a) + credits == lock_of(maker, a) + lock_of(t, a));
                if is_filled(m2) {
                    let s3 = released(s2, m2);
                    lemma_released_total(s2, m2, a);
                    lemma_without_resting_total(s3, m2, a);
                } else {
                    let f = |id: OrderId| lock_of(s2.orders[id], a);
                    let s4 = BookState { orders: s2.orders.insert(maker_id, m2), ..s2 };
                    let g = |id: OrderId| lock_of(s4.orders[id], a);
                    lemma_sum_over_update(s2.orders.dom(), f, g, maker_id);
                    assert(s4.orders.dom() == s2.orders.dom());
                }
            }
        }
    }
}

/// The refund that ends the matching loop, if there is one, is exact: a done or
/// immediate-or-cancel taker is refunded; a good-until-cancelled one rests or is
/// refused, which moves nothing.
pub open spec fn finish_exact(s: BookState, t: Order) -> bool {
    (is_filled(t) || t.tif() == Tif::ImmediateOrCancel) ==> release_exact(s, t)
}

/// Every pass of the matching loop, run for at most `fuel` passes, is exact, and
/// so is its end.
pub open spec fn matching_exact(s: BookState, t: Order, events: Seq<OrderEvent>, fuel: nat) -> bool
    decreases fuel,
{
    if fuel == 0 {
        true
    } else {
        &&& step_exact(s, t)
        &&& match match_step(s, t, events) {
            MatchStep::Continue { state, taker, events } => matching_exact(state, taker, events, (fuel - 1) as nat),
            MatchStep::Stop { state, taker, .. } => finish_exact(state, taker),
            MatchStep::Fail { .. } => true,
        }
    }
}

/// An exact run of the matching loop ends with the taker's collateral in the
/// book, resting or refunded; when it fails, the book plus what the taker still
/// holds is what it was.
pub proof fn lemma_matching_total(s: BookState, t: Order, events: Seq<OrderEvent>, fuel: nat, a: AssetId)
    requires
        book_wf(s),
        fresh_taker(s, t),
        matching_exact(s, t, events, fuel),
        matching(s, t, events, fuel) is Some,
    ensures
        ({
            let (s2, t2, res) = matching(s, t, events, fuel).unwrap();
            &&& res is Ok ==> asset_total(s2, a) == asset_total(s, a) + lock_of(t, a)
            &&& res is Err ==> {
                &&& asset_total(s2, a) + lock_of(t2, a) == asset_total(s, a) + lock_of(t, a)
                &&& book_wf(s2)
                &&& fresh_taker(s2, t2)
            }
        }),
    decreases fuel,
{
    lemma_step_keeps_shape(s, t, events);
    lemma_step_total(s, t, events, a);
    match match_step(s, t, events) {
        MatchStep::Continue { state, taker, events } => {
            lemma_matching_total(state, taker, events, (fuel - 1) as nat, a);
        },
        MatchStep::Stop { state, taker, events } => {
            if is_filled(taker) || taker.tif() == Tif::ImmediateOrCancel {
                lemma_released_total(state, taker, a);
            } else if taker.kind() is Limit {
                lemma_with_resting_total(state, taker, a);
            }
        },
        MatchStep::Fail { .. } => {},
    }
}

/// The opposite amount has the opposite value.
pub(crate) proof fn lemma_negate_value(x: Amount)
    requires
        x.wf(),
    ensures
        x.negate().value() == -x.value(),
{
    let p = crate::amount::pow10((28 - x.scale) as nat);
    assert((-(x.mantissa as int)) * p == -((x.mantissa as int) * p)) by (nonlinear_arith);
}

/// Every decimal step of placing the order is exact: the debit of its
/// collateral, every pass of its matching and its end, and the refund that follows
/// a failed matching.
pub open spec fn placement_exact(
    s: BookState,
    account_id: AccountId,
    asset_id: AssetId,
    side: Side,
    kind: OrderKind,
    amount: Amount,
    tif: Option<Tif>,
) -> bool {
    placement_error(s, account_id, asset_id, side, kind, amount, tif) is None ==> {
        let collateral = collateral_asset_of(side, asset_id);
        let c = balance_of(s.accounts[account_id].balances, collateral);
        let s1 = debited(s, account_id, asset_id, side, amount);
        let order = placed_order(s, account_id, asset_id, side, kind, amount, tif);
        let (s2, t2, res) = processing_outcome(s1, order);
        &&& decimal_sum(c, amount.negate()).value() == c.value() - amount.value()
        &&& forall|fuel: nat|
            #[trigger] matching_computable(s1, order, Seq::empty(), fuel) ==> matching_exact(s1, order, Seq::empty(), fuel)
        &&& res is Err ==> release_exact(s2, t2)
    }
}

/// Taking the collateral moves it out of the balances into the order.
proof fn lemma_debited_total(s: BookState, account_id: AccountId, asset_id: AssetId, side: Side, amount: Amount, a: AssetId)
    requires
        s.accounts.dom().finite(),
        s.accounts.contains_key(account_id),
        amount.wf(),
        ({
            let c = balance_of(s.accounts[account_id].balances, collateral_asset_of(side, asset_id));
            decimal_sum(c, amount.negate()).value() == c.value() - amount.value()
        }),
    ensures
        asset_total(debited(s, account_id, asset_id, side, amount), a) == asset_total(s, a) - (if collateral_asset_of(side, asset_id) == a {
            amount.value()
        } else {
            0
        }),
{
    let t = debited(s, account_id, asset_id, side, amount);
    assert(t.accounts.dom() == s.accounts.dom());
    let f = |j: AccountId| balance_of(s.accounts[j].balances, a).value();
    let g = |j: AccountId| balance_of(t.accounts[j].balances, a).value();
    crate::types::lemma_asset_code_injective(a, collateral_asset_of(side, asset_id));
    lemma_sum_over_update(s.accounts.dom(), f, g, account_id);
}

/// Placing an order neither creates nor destroys any asset: for every asset, the
/// balances of all accounts plus the collateral locked in resting orders add up to
/// what they did before, whenever `rust_decimal` computes each step exactly.
pub proof fn law_place_order_conserves_assets(
    s: BookState,
    account_id: AccountId,
    asset_id: AssetId,
    side: Side,
    kind: OrderKind,
    amount: Amount,
    tif: Option<Tif>,
    a: AssetId,
)
    requires
        book_wf(s),
        amount.wf(),
        placement_computable(s, account_id, asset_id, side, kind, amount, tif),
        placement_exact(s, account_id, asset_id, side, kind, amount, tif),
    ensures
        asset_total(placement_outcome(s, account_id, asset_id, side, kind, amount, tif).0, a) == asset_total(s, a),
{
    if placement_error(s, account_id, asset_id, side, kind, amount, tif) is None {
        let s1 = debited(s, account_id, asset_id, side, amount);
        let order = placed_order(s, account_id, asset_id, side, kind, amount, tif);
        lemma_negate_value(amount);
        lemma_debited_total(s, account_id, asset_id, side, amount, a);
        lemma_debited_wf(s, account_id, asset_id, side, amount);
        if s.orders.contains_key(order.id()) {
            assert(resting_wf(s, order.id()));
        }
        assert(fresh_taker(s1, order));
        let fuel = choose|fuel: nat| matching_computable(s1, order, Seq::empty(), fuel);
        assert(matching_computable(s1, order, Seq::empty(), fuel));
        lemma_matching_computable_some(s1, order, Seq::empty(), fuel);
        lemma_matching_total(s1, order, Seq::empty(), fuel, a);
        let (s2, t2, res) = processing_outcome(s1, order);
        if res is Err {
            lemma_released_total(s2, t2, a);
        }
    }
}

/// The refund of the cancelled order's collateral is exact.
pub open spec fn cancellation_exact(s: BookState, account_id: AccountId, order_id: OrderId) -> bool {
    (s.orders.contains_key(order_id) && s.orders[order_id].account_id() == account_id) ==> release_exact(
        without_resting(s, s.orders[order_id]),
        s.orders[order_id],
    )
}

/// Cancelling an order neither creates nor destroys any asset: what the order
/// held goes back to its owner, whenever `rust_decimal` adds it exactly.
pub proof fn law_cancel_order_conserves_assets(s: BookState, account_id: AccountId, order_id: OrderId, a: AssetId)
    requires
        book_wf(s),
        cancellation_exact(s, account_id, order_id),
    ensures
        asset_total(cancellation_outcome(s, account_id, order_id).0, a) == asset_total(s, a),
{
    if s.orders.contains_key(order_id) && s.orders[order_id].account_id() == account_id {
        let order = s.orders[order_id];
        assert(resting_wf(s, order_id));
        let s0 = without_resting(s, order);
        lemma_without_resting_total(s, order, a);
        lemma_released_total(s0, order, a);
        lemma_registration_total(released(s0, order), account_id, order_id, a);
    }
}

} // verus!
