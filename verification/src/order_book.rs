//! The central limit order book: resting bids and asks, accounts, and the
//! matching loop that routes an incoming order through the match engine.
use crate::account::{balance_of, saturating_settle_outcome, Account, AccountError, AccountState};
use crate::amount::{
    decimal_add, decimal_neg, decimal_sum, difference_in_range, difference_surely_in_range, sum_in_range, sum_surely_in_range,
    within_range, Amount,
};
use crate::match_engine::{match_fits_spec, match_is_computable, match_outcome, MatchEngine, MatchEngineError, MatchResult};
use crate::types::{
    best_for_asset, best_price_of, lemma_best_for_asset_known, levels_after_add, levels_after_remove, AccountId, AssetId, Order, OrderBookSide,
    OrderId, OrderKind, Price, Side, Tif, STABLE_ASSET_ID,
};
use std::collections::HashMap;
use vstd::prelude::*;

verus! {

/// Things that happened to one or more orders while processing a submission.
#[derive(Debug, Clone, PartialEq, Eq)]
pub enum OrderEvent {
    /// A new resting limit was inserted into the book.
    Added { order_id: OrderId },
    /// One aggressive step: the taker against this maker, with the engine's fill detail.
    Matched { taker_order_id: OrderId, maker_order_id: OrderId, match_result: MatchResult },
    /// A resting order was removed by its owner; its collateral was refunded.
    Cancelled { order_id: OrderId },
    /// An order is fully done (filled as maker, or a taker consumed with nothing left to rest).
    Filled { order_id: OrderId },
}

/// Errors surfaced when routing an order through accounts and the matching engine.
#[derive(Debug, Clone, Copy, PartialEq, Eq, Structural)]
pub enum OrderBookError {
    Account(AccountError),
    AccountNotFound,
    MarketOrderCannotRest,
    MatchEngine(MatchEngineError),
    OrderNotFound,
    OrderOwnerMismatch,
    InvalidAsset,
    OrderAmountTooSmall,
}

/// The whole book as the specifications see it.
pub struct BookState {
    pub next_order_id: OrderId,
    pub orders: Map<OrderId, Order>,
    pub buys_side: Side,
    pub buys: Map<Price, Seq<OrderId>>,
    pub sells_side: Side,
    pub sells: Map<Price, Seq<OrderId>>,
    pub assets: Set<AssetId>,
    pub accounts: Map<AccountId, AccountState>,
}

pub open spec fn accounts_view(m: Map<AccountId, Account>) -> Map<AccountId, AccountState> {
    m.map_values(|a: Account| a@)
}

/// In-memory central limit order book: resting bids and asks, monotonic order ids,
/// per-account balances, and the match engine that prices incoming orders.
#[derive(Debug)]
pub struct OrderBook {
    next_order_id: OrderId,
    orders: HashMap<OrderId, Order>,
    pub buys: OrderBookSide,
    pub sells: OrderBookSide,
    match_engine: MatchEngine,
    accounts: HashMap<AccountId, Account>,
}

impl View for OrderBook {
    type V = BookState;

    closed spec fn view(&self) -> BookState {
        BookState {
            next_order_id: self.next_order_id,
            orders: self.orders@,
            buys_side: self.buys.side_spec(),
            buys: self.buys.levels(),
            sells_side: self.sells.side_spec(),
            sells: self.sells.levels(),
            assets: self.match_engine.assets(),
            accounts: accounts_view(self.accounts@),
        }
    }
}

/// The asset that backs an order of this side: the stable asset for a buy, the
/// traded asset for a sell.
pub open spec fn collateral_asset_of(side: Side, asset: AssetId) -> AssetId {
    match side {
        Side::Buy => STABLE_ASSET_ID,
        Side::Sell => asset,
    }
}

/// One minimum lot of the order's working unit (stable for buys, base for sells).
pub open spec fn min_remaining_value(order: Order) -> int {
    match order.side() {
        Side::Buy => STABLE_ASSET_ID.min_amount_value(),
        Side::Sell => order.asset_id().min_amount_value(),
    }
}

/// The order's working amount is at or below one minimum lot: it is treated as done.
pub open spec fn is_filled(order: Order) -> bool {
    order.amount().value() <= min_remaining_value(order)
}

impl OrderBook {
    /// An empty book whose engine supports the given non-stable assets.
    pub fn new<const N: usize>(supported_asset: [AssetId; N]) -> (r: Self)
        ensures
            r@.next_order_id == 1,
            r@.orders == Map::<OrderId, Order>::empty(),
            r@.buys_side == Side::Buy,
            r@.buys == Map::<Price, Seq<OrderId>>::empty(),
            r@.sells_side == Side::Sell,
            r@.sells == Map::<Price, Seq<OrderId>>::empty(),
            r@.accounts == Map::<AccountId, AccountState>::empty(),
            crate::laws::book_wf(r@),
            forall|a: AssetId|
                #![trigger r@.assets.contains(a)]
                r@.assets.contains(a) <==> (a != STABLE_ASSET_ID && supported_asset@.contains(a)),
    {
        let r = OrderBook {
            next_order_id: 1,
            orders: HashMap::new(),
            buys: OrderBookSide::new(Side::Buy),
            sells: OrderBookSide::new(Side::Sell),
            match_engine: MatchEngine::new(supported_asset),
            accounts: HashMap::new(),
        };
        assert(r@.accounts == Map::<AccountId, AccountState>::empty());
        assert(r@.orders.dom() == Set::<OrderId>::empty());
        assert(r@.accounts.dom() == Set::<AccountId>::empty());
        assert(r@.buys.dom() == Set::<Price>::empty());
        assert(r@.sells.dom() == Set::<Price>::empty());
        r
    }

    /// Adds the account, replacing any with the same id.
    pub fn add_account(&mut self, account: Account)
        ensures
            final(self)@ == (BookState { accounts: old(self)@.accounts.insert(account@.id, account@), ..old(self)@ }),
    {
        let id = account.id();
        self.accounts.insert(id, account);
        assert(final(self)@.accounts == old(self)@.accounts.insert(account@.id, account@));
    }

    pub fn account(&self, account_id: AccountId) -> (r: Option<&Account>)
        ensures
            r matches Some(a) ==> self@.accounts.contains_key(account_id) && a@ == self@.accounts[account_id],
            r is None ==> !self@.accounts.contains_key(account_id),
    {
        self.accounts.get(&account_id)
    }

    pub fn accounts(&self) -> (r: &HashMap<AccountId, Account>)
        ensures
            accounts_view(r@) == self@.accounts,
    {
        &self.accounts
    }

    pub fn orders(&self) -> (r: &HashMap<OrderId, Order>)
        ensures
            r@ == self@.orders,
    {
        &self.orders
    }

    pub fn order(&self, order_id: OrderId) -> (r: Option<&Order>)
        ensures
            r matches Some(o) ==> self@.orders.contains_key(order_id) && *o == self@.orders[order_id],
            r is None ==> !self@.orders.contains_key(order_id),
    {
        self.orders.get(&order_id)
    }

    /// The highest price at which an order rests on the buy side, if any does.
    pub fn best_bid(&self) -> (r: Option<Price>)
        ensures
            r == best_price_of(self@.buys_side, self@.buys),
    {
        self.buys.best_price()
    }

    /// The lowest price at which an order rests on the sell side, if any does.
    pub fn best_ask(&self) -> (r: Option<Price>)
        ensures
            r == best_price_of(self@.sells_side, self@.sells),
    {
        self.sells.best_price()
    }

    pub fn get_account(&self, account_id: AccountId) -> (r: Option<&Account>)
        ensures
            r matches Some(a) ==> self@.accounts.contains_key(account_id) && a@ == self@.accounts[account_id],
            r is None ==> !self@.accounts.contains_key(account_id),
    {
        self.accounts.get(&account_id)
    }
}

/// True when the order's working amount is at or below one minimum lot.
fn order_filled_by_remaining(order: &Order) -> (r: bool)
    ensures
        r == is_filled(*order),
{
    !crate::amount::decimal_lt(min_remaining_for_order(order), order.amount())
}

/// The smallest positive amount still treated as meaningful for the order's unit.
fn min_remaining_for_order(order: &Order) -> (r: Amount)
    ensures
        r.value() == min_remaining_value(*order),
{
    match order.side() {
        Side::Buy => STABLE_ASSET_ID.min_amount(),
        Side::Sell => order.asset_id().min_amount(),
    }
}

/// The collateral tied to the order's working amount.
fn collateral_for_order(order: &Order) -> (r: (AssetId, Amount))
    ensures
        r == (collateral_asset_of(order.side(), order.asset_id()), order.amount()),
{
    (collateral_asset(order.side(), order.asset_id()), order.amount())
}

fn collateral_asset(side: Side, asset: AssetId) -> (r: AssetId)
    ensures
        r == collateral_asset_of(side, asset),
{
    match side {
        Side::Buy => STABLE_ASSET_ID,
        Side::Sell => asset,
    }
}

/// Only non-stable assets can be traded.
pub fn validate_asset(asset_id: AssetId) -> (r: Result<(), OrderBookError>)
    ensures
        r is Err <==> asset_id == STABLE_ASSET_ID,
        r matches Err(e) ==> e == OrderBookError::InvalidAsset,
{
    if asset_id == STABLE_ASSET_ID {
        return Err(OrderBookError::InvalidAsset);
    }
    Ok(())
}


/// The account after `saturating_settle(asset, amount)`.
pub open spec fn settled_account(a: AccountState, asset: AssetId, amount: Amount) -> AccountState {
    AccountState {
        balances: a.balances.insert(asset.code(), saturating_settle_outcome(balance_of(a.balances, asset), amount).0),
        ..a
    }
}

/// `saturating_settle(asset, amount)` on the account stays within range.
pub open spec fn settle_computable(a: AccountState, asset: AssetId, amount: Amount) -> bool {
    within_range(balance_of(a.balances, asset).value() + amount.value())
}

/// The book after `account_id` settles `amount` of `asset`, if the account exists.
pub open spec fn settle_in_book(s: BookState, account_id: AccountId, asset: AssetId, amount: Amount) -> BookState {
    if s.accounts.contains_key(account_id) {
        BookState { accounts: s.accounts.insert(account_id, settled_account(s.accounts[account_id], asset, amount)), ..s }
    } else {
        s
    }
}

/// The book after the order's remaining collateral goes back to its owner.
pub open spec fn released(s: BookState, order: Order) -> BookState {
    settle_in_book(s, order.account_id(), collateral_asset_of(order.side(), order.asset_id()), order.amount())
}

pub open spec fn release_computable(s: BookState, order: Order) -> bool {
    s.accounts.contains_key(order.account_id()) ==> settle_computable(
        s.accounts[order.account_id()],
        collateral_asset_of(order.side(), order.asset_id()),
        order.amount(),
    )
}

/// The book after `order_id` leaves the owner's open-order set, if the owner exists.
pub open spec fn unregistered(s: BookState, account_id: AccountId, order_id: OrderId) -> BookState {
    if s.accounts.contains_key(account_id) {
        let a = s.accounts[account_id];
        BookState {
            accounts: s.accounts.insert(account_id, AccountState { open_orders: a.open_orders.remove(order_id), ..a }),
            ..s
        }
    } else {
        s
    }
}

/// The book after `order_id` joins the owner's open-order set, if the owner exists.
pub open spec fn registered(s: BookState, account_id: AccountId, order_id: OrderId) -> BookState {
    if s.accounts.contains_key(account_id) {
        let a = s.accounts[account_id];
        BookState {
            accounts: s.accounts.insert(account_id, AccountState { open_orders: a.open_orders.insert(order_id), ..a }),
            ..s
        }
    } else {
        s
    }
}

/// The book after a resting limit order leaves its price level, the order map and
/// its owner's open-order set; a market order changes nothing.
pub open spec fn without_resting(s: BookState, order: Order) -> BookState {
    match order.kind() {
        OrderKind::Market => s,
        OrderKind::Limit { price } => {
            let s1 = match order.side() {
                Side::Buy => BookState { buys: levels_after_remove(s.buys, price, order.id()), ..s },
                Side::Sell => BookState { sells: levels_after_remove(s.sells, price, order.id()), ..s },
            };
            unregistered(BookState { orders: s1.orders.remove(order.id()), ..s1 }, order.account_id(), order.id())
        },
    }
}

/// The order resting as good-until-cancelled with its remaining amount.
pub open spec fn resting_copy(order: Order) -> Order {
    Order::new_spec(order.id(), order.account_id(), order.asset_id(), order.side(), order.kind(), order.amount(), Tif::GoodUntilCancelled)
}

/// The book after the rest of a limit taker joins its price level; a market taker
/// changes nothing.
pub open spec fn with_resting(s: BookState, taker: Order) -> BookState {
    match taker.kind() {
        OrderKind::Market => s,
        OrderKind::Limit { price } => {
            let s1 = match taker.side() {
                Side::Buy => BookState { buys: levels_after_add(s.buys, price, taker.id()), ..s },
                Side::Sell => BookState { sells: levels_after_add(s.sells, price, taker.id()), ..s },
            };
            let s2 = registered(s1, taker.account_id(), taker.id());
            BookState { orders: s2.orders.insert(taker.id(), resting_copy(taker)), ..s2 }
        },
    }
}

/// Credits of one match: base to the buyer, stable to the seller, each only when
/// positive; a missing account stops with `AccountNotFound` after what was done.
pub open spec fn settlement(s: BookState, maker: Order, taker: Order, mr: MatchResult) -> (Result<(), OrderBookError>, BookState) {
    if maker.side() == taker.side() {
        (Err(OrderBookError::MatchEngine(MatchEngineError::InvalidOrderSide)), s)
    } else {
        let buyer = if maker.side() == Side::Buy { maker } else { taker };
        let seller = if maker.side() == Side::Buy { taker } else { maker };
        let (r1, s1) = if mr.buyer_base_received.value() > 0 {
            if s.accounts.contains_key(buyer.account_id()) {
                (Ok(()), settle_in_book(s, buyer.account_id(), buyer.asset_id(), mr.buyer_base_received))
            } else {
                (Err(OrderBookError::AccountNotFound), s)
            }
        } else {
            (Ok(()), s)
        };
        if r1 is Err {
            (r1, s1)
        } else if mr.seller_stable_received.value() > 0 {
            if s1.accounts.contains_key(seller.account_id()) {
                (Ok(()), settle_in_book(s1, seller.account_id(), STABLE_ASSET_ID, mr.seller_stable_received))
            } else {
                (Err(OrderBookError::AccountNotFound), s1)
            }
        } else {
            (Ok(()), s1)
        }
    }
}

pub open spec fn settlement_computable(s: BookState, maker: Order, taker: Order, mr: MatchResult) -> bool {
    if maker.side() == taker.side() {
        true
    } else {
        let buyer = if maker.side() == Side::Buy { maker } else { taker };
        let seller = if maker.side() == Side::Buy { taker } else { maker };
        let s1 = if mr.buyer_base_received.value() > 0 {
            settle_in_book(s, buyer.account_id(), buyer.asset_id(), mr.buyer_base_received)
        } else {
            s
        };
        &&& (mr.buyer_base_received.value() > 0 && s.accounts.contains_key(buyer.account_id()))
            ==> settle_computable(s.accounts[buyer.account_id()], buyer.asset_id(), mr.buyer_base_received)
        &&& (mr.seller_stable_received.value() > 0 && s1.accounts.contains_key(seller.account_id()))
            ==> settle_computable(s1.accounts[seller.account_id()], STABLE_ASSET_ID, mr.seller_stable_received)
    }
}

proof fn lemma_accounts_view_insert(m: Map<AccountId, Account>, k: AccountId, a: Account)
    ensures
        accounts_view(m.insert(k, a)) == accounts_view(m).insert(k, a@),
{
    assert(accounts_view(m.insert(k, a)) =~= accounts_view(m).insert(k, a@));
}

impl OrderBook {
    /// Settles `amount` of `asset` on the account, if it exists.
    fn settle_account(&mut self, account_id: AccountId, asset: AssetId, amount: Amount)
        requires
            old(self)@.accounts.contains_key(account_id) ==> settle_computable(old(self)@.accounts[account_id], asset, amount),
        ensures
            final(self)@ == settle_in_book(old(self)@, account_id, asset, amount),
    {
        match self.accounts.remove(&account_id) {
            Some(account) => {
                assert(accounts_view(old(self).accounts@)[account_id] == account@);
                let mut account = account;
                account.saturating_settle(asset, amount);
                self.accounts.insert(account_id, account);
                proof {
                    lemma_accounts_view_insert(old(self).accounts@, account_id, account);
                    assert(old(self).accounts@.remove(account_id).insert(account_id, account) == old(self).accounts@.insert(account_id, account));
                }
            },
            None => {
                assert(self.accounts@ == old(self).accounts@);
            },
        }
    }

    /// Credits the order's remaining collateral back to its owner.
    fn release_for_order(&mut self, order: &Order)
        requires
            release_computable(old(self)@, *order),
        ensures
            final(self)@ == released(old(self)@, *order),
    {
        let (asset_id, amount) = collateral_for_order(order);
        self.settle_account(order.account_id(), asset_id, amount);
    }

    /// Drops a resting limit order from its price level, the order map and its
    /// owner's open-order set.
    fn remove_resting_order(&mut self, order: &Order)
        ensures
            final(self)@ == without_resting(old(self)@, *order),
    {
        let price = match order.kind() {
            OrderKind::Limit { price } => price,
            OrderKind::Market => return,
        };
        match order.side() {
            Side::Buy => self.buys.remove_limit_order(price, order.id()),
            Side::Sell => self.sells.remove_limit_order(price, order.id()),
        }
        self.orders.remove(&order.id());
        let account_id = order.account_id();
        match self.accounts.remove(&account_id) {
            Some(account) => {
                assert(accounts_view(old(self).accounts@)[account_id] == account@);
                let mut account = account;
                account.unregister_open_order(order.id());
                self.accounts.insert(account_id, account);
                proof {
                    lemma_accounts_view_insert(old(self).accounts@, account_id, account);
                    assert(old(self).accounts@.remove(account_id).insert(account_id, account) == old(self).accounts@.insert(account_id, account));
                }
            },
            None => {
                assert(self.accounts@ == old(self).accounts@);
            },
        }
    }

    fn register_open_order_for_account(&mut self, account_id: AccountId, order_id: OrderId)
        ensures
            final(self)@ == registered(old(self)@, account_id, order_id),
    {
        match self.accounts.remove(&account_id) {
            Some(account) => {
                assert(accounts_view(old(self).accounts@)[account_id] == account@);
                let mut account = account;
                account.register_open_order(order_id);
                self.accounts.insert(account_id, account);
                proof {
                    lemma_accounts_view_insert(old(self).accounts@, account_id, account);
                    assert(old(self).accounts@.remove(account_id).insert(account_id, account) == old(self).accounts@.insert(account_id, account));
                }
            },
            None => {
                assert(self.accounts@ == old(self).accounts@);
            },
        }
    }

    /// Rests the remainder of a limit taker as a good-until-cancelled order at its
    /// price and records it on the owner's open-order set.
    fn rest_remaining_taker_order(&mut self, taker: &Order)
        ensures
            final(self)@ == with_resting(old(self)@, *taker),
    {
        let price = match taker.kind() {
            OrderKind::Limit { price } => price,
            OrderKind::Market => return,
        };
        let order_id = taker.id();
        let remaining_order = Order::new(
            order_id,
            taker.account_id(),
            taker.asset_id(),
            taker.side(),
            OrderKind::Limit { price },
            taker.amount(),
            Tif::GoodUntilCancelled,
        );
        match taker.side() {
            Side::Buy => self.buys.add_limit_order(price, order_id),
            Side::Sell => self.sells.add_limit_order(price, order_id),
        }
        self.register_open_order_for_account(taker.account_id(), order_id);
        self.orders.insert(order_id, remaining_order);
    }

    /// Credits the asset flows of one match to the buyer's and the seller's accounts.
    fn apply_match_settlement(&mut self, maker: &Order, taker: &Order, match_result: &MatchResult) -> (r: Result<(), OrderBookError>)
        requires
            settlement_computable(old(self)@, *maker, *taker, *match_result),
        ensures
            (r, final(self)@) == settlement(old(self)@, *maker, *taker, *match_result),
    {
        let (buyer, seller) = match (maker.side(), taker.side()) {
            (Side::Buy, Side::Sell) => (maker, taker),
            (Side::Sell, Side::Buy) => (taker, maker),
            _ => return Err(OrderBookError::MatchEngine(MatchEngineError::InvalidOrderSide)),
        };
        let zero = Amount::zero();
        if crate::amount::decimal_lt(zero, match_result.buyer_base_received) {
            if !self.accounts.contains_key(&buyer.account_id()) {
                return Err(OrderBookError::AccountNotFound);
            }
            self.settle_account(buyer.account_id(), buyer.asset_id(), match_result.buyer_base_received);
        }
        if crate::amount::decimal_lt(zero, match_result.seller_stable_received) {
            if !self.accounts.contains_key(&seller.account_id()) {
                return Err(OrderBookError::AccountNotFound);
            }
            self.settle_account(seller.account_id(), STABLE_ASSET_ID, match_result.seller_stable_received);
        }
        Ok(())
    }
}


/// One pass of the matching loop.
pub enum MatchStep {
    /// A match was made; the loop goes on.
    Continue { state: BookState, taker: Order, events: Seq<OrderEvent> },
    /// The loop ends: the taker is done, nothing is left to meet, or prices do not cross.
    Stop { state: BookState, taker: Order, events: Seq<OrderEvent> },
    /// The engine or the settlement reported an error.
    Fail { state: BookState, taker: Order, error: OrderBookError },
}

/// The resting order the taker meets next: the best one on the opposite side.
pub open spec fn next_maker(s: BookState, taker: Order) -> Option<OrderId> {
    match taker.side() {
        Side::Buy => best_for_asset(s.sells_side, s.sells, s.orders, taker.asset_id()),
        Side::Sell => best_for_asset(s.buys_side, s.buys, s.orders, taker.asset_id()),
    }
}

/// One pass of the matching loop: match the taker against the next maker, settle
/// both accounts, and retire a filled maker (refunding its dust) or store its rest.
pub open spec fn match_step(s: BookState, taker: Order, events: Seq<OrderEvent>) -> MatchStep {
    if is_filled(taker) {
        MatchStep::Stop { state: s, taker, events }
    } else {
        match next_maker(s, taker) {
            None => MatchStep::Stop { state: s, taker, events },
            Some(maker_id) => {
                let (r, maker, t) = match_outcome(s.assets, s.orders[maker_id], taker);
                match r {
                    Err(MatchEngineError::OrderPriceMismatch) => MatchStep::Stop { state: s, taker: t, events },
                    Err(e) => MatchStep::Fail { state: s, taker: t, error: OrderBookError::MatchEngine(e) },
                    Ok(mr) => {
                        let ev = events.push(
                            OrderEvent::Matched { taker_order_id: t.id(), maker_order_id: maker_id, match_result: mr },
                        );
                        let (sr, s2) = settlement(s, maker, t, mr);
                        match sr {
                            Err(e) => MatchStep::Fail { state: s2, taker: t, error: e },
                            Ok(_) => if is_filled(maker) {
                                MatchStep::Continue {
                                    state: without_resting(released(s2, maker), maker),
                                    taker: t,
                                    events: ev.push(OrderEvent::Filled { order_id: maker_id }),
                                }
                            } else {
                                MatchStep::Continue {
                                    state: BookState { orders: s2.orders.insert(maker_id, maker), ..s2 },
                                    taker: t,
                                    events: ev,
                                }
                            },
                        }
                    },
                }
            },
        }
    }
}

/// One pass of the matching loop stays within what `rust_decimal` can compute.
pub open spec fn step_computable(s: BookState, taker: Order) -> bool {
    if is_filled(taker) {
        true
    } else {
        match next_maker(s, taker) {
            None => true,
            Some(maker_id) => {
                let (r, maker, t) = match_outcome(s.assets, s.orders[maker_id], taker);
                &&& match_is_computable(s.assets, s.orders[maker_id], taker)
                &&& r matches Ok(mr) ==> {
                    let (sr, s2) = settlement(s, maker, t, mr);
                    &&& settlement_computable(s, maker, t, mr)
                    &&& (sr is Ok && is_filled(maker)) ==> release_computable(s2, maker)
                }
            },
        }
    }
}

/// After the loop: a done taker has its dust refunded; otherwise a
/// good-until-cancelled limit taker rests, a good-until-cancelled market taker,
/// which cannot rest, is refused with `MarketOrderCannotRest` and the book left
/// as it is, and an immediate-or-cancel taker is refunded.
pub open spec fn finish(s: BookState, taker: Order, events: Seq<OrderEvent>) -> (BookState, Result<
    Seq<OrderEvent>,
    OrderBookError,
>) {
    if is_filled(taker) {
        (released(s, taker), Ok(events.push(OrderEvent::Filled { order_id: taker.id() })))
    } else {
        match taker.tif() {
            Tif::GoodUntilCancelled => match taker.kind() {
                OrderKind::Market => (s, Err(OrderBookError::MarketOrderCannotRest)),
                OrderKind::Limit { .. } => (
                    with_resting(s, taker),
                    Ok(events.push(OrderEvent::Added { order_id: taker.id() })),
                ),
            },
            Tif::ImmediateOrCancel => (released(s, taker), Ok(events)),
        }
    }
}

pub open spec fn finish_computable(s: BookState, taker: Order) -> bool {
    (is_filled(taker) || taker.tif() == Tif::ImmediateOrCancel) ==> release_computable(s, taker)
}

/// The matching loop run for at most `fuel` passes, then finished: the book, the
/// taker and the events or error. `None` when the fuel runs out first.
pub open spec fn matching(s: BookState, taker: Order, events: Seq<OrderEvent>, fuel: nat) -> Option<
    (BookState, Order, Result<Seq<OrderEvent>, OrderBookError>),
>
    decreases fuel,
{
    if fuel == 0 {
        None
    } else {
        match match_step(s, taker, events) {
            MatchStep::Continue { state, taker, events } => matching(state, taker, events, (fuel - 1) as nat),
            MatchStep::Stop { state, taker, events } => {
                let (s2, r2) = finish(state, taker, events);
                Some((s2, taker, r2))
            },
            MatchStep::Fail { state, taker, error } => Some((state, taker, Err(error))),
        }
    }
}

/// The matching loop ends within `fuel` passes and every step of it, the finish
/// included, stays within what `rust_decimal` can compute.
pub open spec fn matching_computable(s: BookState, taker: Order, events: Seq<OrderEvent>, fuel: nat) -> bool
    decreases fuel,
{
    if fuel == 0 {
        false
    } else {
        &&& step_computable(s, taker)
        &&& match match_step(s, taker, events) {
            MatchStep::Continue { state, taker, events } => matching_computable(state, taker, events, (fuel - 1) as nat),
            MatchStep::Stop { state, taker, events } => finish_computable(state, taker),
            MatchStep::Fail { .. } => true,
        }
    }
}

/// Processing `taker` against this book ends and does not overflow.
pub open spec fn processing_terminates(s: BookState, taker: Order) -> bool {
    exists|fuel: nat| matching_computable(s, taker, Seq::empty(), fuel)
}

/// What processing `taker` against this book gives.
pub open spec fn processing_outcome(s: BookState, taker: Order) -> (BookState, Order, Result<Seq<OrderEvent>, OrderBookError>) {
    let fuel = choose|fuel: nat| matching_computable(s, taker, Seq::empty(), fuel);
    matching(s, taker, Seq::empty(), fuel).unwrap()
}

/// The events returned match the events of the specification, or both are the same error.
pub open spec fn same_result(r: Result<Vec<OrderEvent>, OrderBookError>, spec: Result<Seq<OrderEvent>, OrderBookError>) -> bool {
    match (r, spec) {
        (Ok(v), Ok(e)) => v@ == e,
        (Err(a), Err(b)) => a == b,
        _ => false,
    }
}

pub proof fn lemma_matching_computable_some(s: BookState, taker: Order, events: Seq<OrderEvent>, fuel: nat)
    requires
        matching_computable(s, taker, events, fuel),
    ensures
        matching(s, taker, events, fuel) is Some,
    decreases fuel,
{
    match match_step(s, taker, events) {
        MatchStep::Continue { state, taker, events } => lemma_matching_computable_some(state, taker, events, (fuel - 1) as nat),
        _ => {},
    }
}

impl OrderBook {
    /// Matches `taker` against the opposite side until it is done, prices stop
    /// crossing or nothing is left; then rests a good-until-cancelled limit
    /// remainder, refuses a good-until-cancelled market remainder with
    /// `MarketOrderCannotRest`, or refunds an immediate-or-cancel one.
    pub fn process_order(&mut self, taker: &mut Order) -> (r: Result<Vec<OrderEvent>, OrderBookError>)
        requires
            processing_terminates(old(self)@, *old(taker)),
        ensures
            ({
                let (s, t, res) = processing_outcome(old(self)@, *old(taker));
                &&& final(self)@ == s
                &&& *final(taker) == t
                &&& same_result(r, res)
            }),
    {
        let ghost s0 = self@;
        let ghost t0 = *taker;
        let ghost fuel0 = choose|fuel: nat| matching_computable(s0, t0, Seq::empty(), fuel);
        let ghost mut fuel = fuel0;
        let mut events: Vec<OrderEvent> = Vec::new();
        proof {
            lemma_matching_computable_some(s0, t0, Seq::empty(), fuel0);
        }
        loop
            invariant
                s0 == old(self)@,
                t0 == *old(taker),
                matching_computable(self@, *taker, events@, fuel),
                matching(s0, t0, Seq::empty(), fuel0) == matching(self@, *taker, events@, fuel),
                processing_outcome(s0, t0) == matching(s0, t0, Seq::empty(), fuel0).unwrap(),
            ensures
                matching_computable(self@, *taker, events@, fuel),
                matching(s0, t0, Seq::empty(), fuel0) == matching(self@, *taker, events@, fuel),
                processing_outcome(s0, t0) == matching(s0, t0, Seq::empty(), fuel0).unwrap(),
                match_step(self@, *taker, events@) is Stop,
            decreases fuel,
        {
            let ghost s = self@;
            let ghost t = *taker;
            let ghost ev = events@;
            if order_filled_by_remaining(taker) {
                break;
            }
            let next = match taker.side() {
                Side::Buy => self.sells.best_order_id_for_asset(&self.orders, taker.asset_id()),
                Side::Sell => self.buys.best_order_id_for_asset(&self.orders, taker.asset_id()),
            };
            let maker_order_id = match next {
                Some(id) => id,
                None => break,
            };
            proof {
                lemma_best_for_asset_known(s.sells_side, s.sells, s.orders, t.asset_id());
                lemma_best_for_asset_known(s.buys_side, s.buys, s.orders, t.asset_id());
            }
            let mut maker = *self.orders.get(&maker_order_id).unwrap();
            let match_result = match self.match_engine.match_orders(&mut maker, taker) {
                Ok(r) => r,
                Err(MatchEngineError::OrderPriceMismatch) => break,
                Err(error) => {
                    proof {
                        assert(match_step(s, t, ev) == MatchStep::Fail {
                            state: s,
                            taker: *taker,
                            error: OrderBookError::MatchEngine(error),
                        });
                        assert(matching(s, t, ev, fuel) == Some((s, *taker, Err::<Seq<OrderEvent>, OrderBookError>(OrderBookError::MatchEngine(error)))));
                    }
                    return Err(OrderBookError::MatchEngine(error));
                },
            };
            events.push(OrderEvent::Matched { taker_order_id: taker.id(), maker_order_id, match_result });
            match self.apply_match_settlement(&maker, taker, &match_result) {
                Ok(()) => {},
                Err(e) => {
                    proof {
                        assert(match_step(s, t, ev) == MatchStep::Fail { state: self@, taker: *taker, error: e });
                        assert(matching(s, t, ev, fuel) == Some((self@, *taker, Err::<Seq<OrderEvent>, OrderBookError>(e))));
                    }
                    return Err(e);
                },
            }
            if order_filled_by_remaining(&maker) {
                self.release_for_order(&maker);
                self.remove_resting_order(&maker);
                events.push(OrderEvent::Filled { order_id: maker_order_id });
            } else {
                self.orders.insert(maker_order_id, maker);
            }
            proof {
                fuel = (fuel - 1) as nat;
            }
        }
        if order_filled_by_remaining(taker) {
            self.release_for_order(taker);
            events.push(OrderEvent::Filled { order_id: taker.id() });
        } else {
            match taker.tif() {
                Tif::GoodUntilCancelled => {
                    if taker.kind() == OrderKind::Market {
                        return Err(OrderBookError::MarketOrderCannotRest);
                    }
                    self.rest_remaining_taker_order(taker);
                    events.push(OrderEvent::Added { order_id: taker.id() });
                },
                Tif::ImmediateOrCancel => {
                    self.release_for_order(taker);
                },
            }
        }
        Ok(events)
    }
}


/// Why `place_order` refuses an order before touching the book, if it does.
pub open spec fn placement_error(
    s: BookState,
    account_id: AccountId,
    asset_id: AssetId,
    side: Side,
    kind: OrderKind,
    amount: Amount,
    tif: Option<Tif>,
) -> Option<OrderBookError> {
    let collateral = collateral_asset_of(side, asset_id);
    if asset_id == STABLE_ASSET_ID {
        Some(OrderBookError::InvalidAsset)
    } else if kind == OrderKind::Market && tif == Some(Tif::GoodUntilCancelled) {
        Some(OrderBookError::MarketOrderCannotRest)
    } else if amount.value() < collateral.min_amount_value() {
        Some(OrderBookError::OrderAmountTooSmall)
    } else if !s.accounts.contains_key(account_id) {
        Some(OrderBookError::AccountNotFound)
    } else if decimal_sum(balance_of(s.accounts[account_id].balances, collateral), amount.negate()).value() < 0 {
        Some(OrderBookError::Account(AccountError::InsufficientBalance))
    } else {
        None
    }
}

/// The time in force an order gets: good-until-cancelled unless given.
pub open spec fn tif_or_default(tif: Option<Tif>) -> Tif {
    match tif {
        Some(t) => t,
        None => Tif::GoodUntilCancelled,
    }
}

/// The book once the order's collateral is debited and its id taken.
pub open spec fn debited(s: BookState, account_id: AccountId, asset_id: AssetId, side: Side, amount: Amount) -> BookState {
    let collateral = collateral_asset_of(side, asset_id);
    let a = s.accounts[account_id];
    let next = decimal_sum(balance_of(a.balances, collateral), amount.negate());
    BookState {
        next_order_id: (s.next_order_id + 1) as OrderId,
        accounts: s.accounts.insert(account_id, AccountState { balances: a.balances.insert(collateral.code(), next), ..a }),
        ..s
    }
}

/// The order `place_order` builds and routes.
pub open spec fn placed_order(
    s: BookState,
    account_id: AccountId,
    asset_id: AssetId,
    side: Side,
    kind: OrderKind,
    amount: Amount,
    tif: Option<Tif>,
) -> Order {
    Order::new_spec(s.next_order_id, account_id, asset_id, side, kind, amount, tif_or_default(tif))
}

/// `place_order` ends and stays within what the integers and `rust_decimal` can
/// compute: a fresh id is left, the debit and the matching stay in range, and a
/// refund after a failed match does too.
pub open spec fn placement_computable(
    s: BookState,
    account_id: AccountId,
    asset_id: AssetId,
    side: Side,
    kind: OrderKind,
    amount: Amount,
    tif: Option<Tif>,
) -> bool {
    let collateral = collateral_asset_of(side, asset_id);
    let accepted_before_debit = asset_id != STABLE_ASSET_ID && !(kind == OrderKind::Market && tif == Some(
        Tif::GoodUntilCancelled,
    )) && amount.value() >= collateral.min_amount_value() && s.accounts.contains_key(account_id);
    let s1 = debited(s, account_id, asset_id, side, amount);
    let order = placed_order(s, account_id, asset_id, side, kind, amount, tif);
    let (s2, t2, res) = processing_outcome(s1, order);
    &&& accepted_before_debit ==> within_range(
        balance_of(s.accounts[account_id].balances, collateral).value() - amount.value(),
    )
    &&& placement_error(s, account_id, asset_id, side, kind, amount, tif) is None ==> {
        &&& s.next_order_id < u64::MAX
        &&& processing_terminates(s1, order)
        &&& res is Err ==> release_computable(s2, t2)
    }
}

/// What `place_order` leaves: the book and the events or error.
pub open spec fn placement_outcome(
    s: BookState,
    account_id: AccountId,
    asset_id: AssetId,
    side: Side,
    kind: OrderKind,
    amount: Amount,
    tif: Option<Tif>,
) -> (BookState, Result<Seq<OrderEvent>, OrderBookError>) {
    match placement_error(s, account_id, asset_id, side, kind, amount, tif) {
        Some(e) => (s, Err(e)),
        None => {
            let s1 = debited(s, account_id, asset_id, side, amount);
            let order = placed_order(s, account_id, asset_id, side, kind, amount, tif);
            let (s2, t2, res) = processing_outcome(s1, order);
            match res {
                Ok(events) => (s2, Ok(events)),
                Err(e) => (released(s2, t2), Err(e)),
            }
        },
    }
}

/// What `cancel_order` leaves: the book and the events or error.
pub open spec fn cancellation_outcome(s: BookState, account_id: AccountId, order_id: OrderId) -> (BookState, Result<
    Seq<OrderEvent>,
    OrderBookError,
>) {
    if !s.orders.contains_key(order_id) {
        (s, Err(OrderBookError::OrderNotFound))
    } else {
        let order = s.orders[order_id];
        if order.account_id() != account_id {
            (s, Err(OrderBookError::OrderOwnerMismatch))
        } else {
            let s1 = released(without_resting(s, order), order);
            if !s1.accounts.contains_key(account_id) {
                (s1, Err(OrderBookError::AccountNotFound))
            } else {
                (unregistered(s1, account_id, order_id), Ok(seq![OrderEvent::Cancelled { order_id: order.id() }]))
            }
        }
    }
}

pub open spec fn cancellation_computable(s: BookState, account_id: AccountId, order_id: OrderId) -> bool {
    (s.orders.contains_key(order_id) && s.orders[order_id].account_id() == account_id) ==> release_computable(
        without_resting(s, s.orders[order_id]),
        s.orders[order_id],
    )
}

impl OrderBook {
    /// Validates the order, debits its full collateral from the account, gives it
    /// the next id and routes it through `process_order`; if processing fails, the
    /// order's remaining collateral is refunded.
    pub fn place_order(
        &mut self,
        account_id: AccountId,
        asset_id: AssetId,
        side: Side,
        kind: OrderKind,
        amount: Amount,
        tif: Option<Tif>,
    ) -> (r: Result<Vec<OrderEvent>, OrderBookError>)
        requires
            placement_computable(old(self)@, account_id, asset_id, side, kind, amount, tif),
        ensures
            ({
                let (s, res) = placement_outcome(old(self)@, account_id, asset_id, side, kind, amount, tif);
                &&& final(self)@ == s
                &&& same_result(r, res)
            }),
    {
        match validate_asset(asset_id) {
            Ok(()) => {},
            Err(e) => return Err(e),
        }
        if kind == OrderKind::Market && tif == Some(Tif::GoodUntilCancelled) {
            return Err(OrderBookError::MarketOrderCannotRest);
        }
        let tif = match tif {
            Some(t) => t,
            None => Tif::default(),
        };
        let collateral_asset_id = collateral_asset(side, asset_id);
        let collateral_amount = amount;
        if crate::amount::decimal_lt(collateral_amount, collateral_asset_id.min_amount()) {
            return Err(OrderBookError::OrderAmountTooSmall);
        }
        let mut account = match self.accounts.remove(&account_id) {
            Some(a) => a,
            None => {
                assert(self.accounts@ == old(self).accounts@);
                return Err(OrderBookError::AccountNotFound);
            },
        };
        assert(accounts_view(old(self).accounts@)[account_id] == account@);
        let debit = decimal_neg(collateral_amount);
        let settled = account.try_settle(collateral_asset_id, debit);
        self.accounts.insert(account_id, account);
        proof {
            lemma_accounts_view_insert(old(self).accounts@, account_id, account);
            assert(old(self).accounts@.remove(account_id).insert(account_id, account) == old(self).accounts@.insert(account_id, account));
        }
        match settled {
            Ok(()) => {},
            Err(e) => {
                proof {
                    assert(accounts_view(old(self).accounts@).insert(account_id, account@) == accounts_view(old(self).accounts@));
                }
                return Err(OrderBookError::Account(e));
            },
        }
        let order_id = self.next_order_id;
        self.next_order_id = self.next_order_id + 1;
        let mut order = Order::new(order_id, account_id, asset_id, side, kind, amount, tif);
        assert(self@ == debited(old(self)@, account_id, asset_id, side, amount));
        match self.process_order(&mut order) {
            Ok(events) => Ok(events),
            Err(error) => {
                self.release_for_order(&order);
                Err(error)
            },
        }
    }

    /// Removes a resting limit order owned by `account_id` and refunds its remaining
    /// collateral to the account.
    pub fn cancel_order(&mut self, account_id: AccountId, order_id: OrderId) -> (r: Result<Vec<OrderEvent>, OrderBookError>)
        requires
            cancellation_computable(old(self)@, account_id, order_id),
        ensures
            ({
                let (s, res) = cancellation_outcome(old(self)@, account_id, order_id);
                &&& final(self)@ == s
                &&& same_result(r, res)
            }),
    {
        let order = match self.orders.get(&order_id) {
            Some(o) => *o,
            None => return Err(OrderBookError::OrderNotFound),
        };
        if order.account_id() != account_id {
            return Err(OrderBookError::OrderOwnerMismatch);
        }
        self.remove_resting_order(&order);
        self.release_for_order(&order);
        let ghost before = self.accounts@;
        match self.accounts.remove(&account_id) {
            Some(account) => {
                assert(accounts_view(before)[account_id] == account@);
                let mut account = account;
                account.unregister_open_order(order_id);
                self.accounts.insert(account_id, account);
                proof {
                    lemma_accounts_view_insert(before, account_id, account);
                    assert(before.remove(account_id).insert(account_id, account) == before.insert(account_id, account));
                }
            },
            None => {
                assert(self.accounts@ == before);
                return Err(OrderBookError::AccountNotFound);
            },
        }
        let mut events: Vec<OrderEvent> = Vec::new();
        events.push(OrderEvent::Cancelled { order_id: order.id() });
        Ok(events)
    }
}

/// Settling `amount` of `asset` on the account surely stays within range, as the
/// mantissa tests of `amount` tell; a missing account is settled by doing nothing.
pub open spec fn settle_fits_spec(s: BookState, k: AccountId, asset: AssetId, amount: Amount) -> bool {
    s.accounts.contains_key(k) ==> sum_surely_in_range(balance_of(s.accounts[k].balances, asset), amount)
}

/// Refunding the order's remaining collateral surely stays within range.
pub open spec fn release_fits_spec(s: BookState, o: Order) -> bool {
    settle_fits_spec(s, o.account_id(), collateral_asset_of(o.side(), o.asset_id()), o.amount())
}

/// Both credits of a match surely stay within range, each tested on the book
/// before the match.
pub open spec fn settlement_fits_spec(s: BookState, maker: Order, taker: Order, mr: MatchResult) -> bool {
    if maker.side() == taker.side() {
        true
    } else {
        let buyer = if maker.side() == Side::Buy { maker } else { taker };
        let seller = if maker.side() == Side::Buy { taker } else { maker };
        &&& mr.buyer_base_received.value() > 0 ==> settle_fits_spec(s, buyer.account_id(), buyer.asset_id(), mr.buyer_base_received)
        &&& mr.seller_stable_received.value() > 0 ==> settle_fits_spec(s, seller.account_id(), STABLE_ASSET_ID, mr.seller_stable_received)
    }
}

/// The end of the matching loop surely stays within range: a refund, where
/// there is one, fits.
pub open spec fn finish_fits(s: BookState, t: Order) -> bool {
    if is_filled(t) {
        release_fits_spec(s, t)
    } else {
        match t.tif() {
            Tif::GoodUntilCancelled => true,
            Tif::ImmediateOrCancel => release_fits_spec(s, t),
        }
    }
}

/// The dry run of the matching loop with at most `steps_left` more matches:
/// `true` when every step and the end fit, or the run stops on an error; `false`
/// when a step does not fit or the steps run out before the loop ends.
pub open spec fn run_fits(s: BookState, t: Order, steps_left: nat) -> bool
    decreases steps_left,
{
    if is_filled(t) {
        finish_fits(s, t)
    } else {
        match next_maker(s, t) {
            None => finish_fits(s, t),
            Some(maker_id) => if steps_left == 0 {
                false
            } else if !match_fits_spec(s.assets, s.orders[maker_id], t) {
                false
            } else {
                let (r, maker, t2) = match_outcome(s.assets, s.orders[maker_id], t);
                match r {
                    Err(MatchEngineError::OrderPriceMismatch) => finish_fits(s, t2),
                    Err(_) => true,
                    Ok(mr) => if !settlement_fits_spec(s, maker, t2, mr) {
                        false
                    } else {
                        let (sr, s2) = settlement(s, maker, t2, mr);
                        match sr {
                            Err(_) => true,
                            Ok(_) => if is_filled(maker) {
                                release_fits_spec(s2, maker) && run_fits(
                                    without_resting(released(s2, maker), maker),
                                    t2,
                                    (steps_left - 1) as nat,
                                )
                            } else {
                                run_fits(
                                    BookState { orders: s2.orders.insert(maker_id, maker), ..s2 },
                                    t2,
                                    (steps_left - 1) as nat,
                                )
                            },
                        }
                    },
                }
            },
        }
    }
}

/// How many matches the dry run allows: one more than the book has orders.
pub open spec fn processing_steps(s: BookState) -> nat {
    if s.orders.len() < usize::MAX {
        s.orders.len() + 1
    } else {
        s.orders.len()
    }
}

/// What `try_process_order` asks before it processes `taker`.
pub open spec fn processing_fits_spec(s: BookState, taker: Order) -> bool {
    run_fits(s, taker, processing_steps(s))
}

/// What `try_place_order` asks before it places the order: the refusals of
/// `place_order` need nothing; otherwise the debit, the matching and a refund
/// after a failed matching surely stay within range, and an id is left.
pub open spec fn placement_fits_spec(
    s: BookState,
    account_id: AccountId,
    asset_id: AssetId,
    side: Side,
    kind: OrderKind,
    amount: Amount,
    tif: Option<Tif>,
) -> bool {
    let collateral = collateral_asset_of(side, asset_id);
    if asset_id == STABLE_ASSET_ID || (kind == OrderKind::Market && tif == Some(Tif::GoodUntilCancelled)) {
        true
    } else if amount.value() < collateral.min_amount_value() {
        true
    } else if !s.accounts.contains_key(account_id) {
        true
    } else {
        let balance = balance_of(s.accounts[account_id].balances, collateral);
        if !difference_surely_in_range(balance, amount) {
            false
        } else if decimal_sum(balance, amount.negate()).value() < 0 {
            true
        } else if s.next_order_id == u64::MAX {
            false
        } else {
            let s1 = debited(s, account_id, asset_id, side, amount);
            let order = placed_order(s, account_id, asset_id, side, kind, amount, tif);
            let (s2, t2, res) = processing_outcome(s1, order);
            processing_fits_spec(s1, order) && (res is Ok || release_fits_spec(s2, t2))
        }
    }
}

/// A credit of a traded asset leaves every stable balance as it was.
proof fn lemma_settle_keeps_stable(s: BookState, k: AccountId, asset: AssetId, amount: Amount, k2: AccountId)
    requires
        asset != STABLE_ASSET_ID,
    ensures
        settle_in_book(s, k, asset, amount).accounts.contains_key(k2) == s.accounts.contains_key(k2),
        s.accounts.contains_key(k2) ==> balance_of(settle_in_book(s, k, asset, amount).accounts[k2].balances, STABLE_ASSET_ID)
            == balance_of(s.accounts[k2].balances, STABLE_ASSET_ID),
{
    crate::types::lemma_asset_code_injective(asset, STABLE_ASSET_ID);
}

impl OrderBook {
    /// A copy of the book.
    fn snapshot(&self) -> (r: OrderBook)
        ensures
            r@ == self@,
    {
        OrderBook {
            next_order_id: self.next_order_id,
            orders: self.orders.clone(),
            buys: self.buys.copy(),
            sells: self.sells.copy(),
            match_engine: self.match_engine.clone(),
            accounts: self.accounts.clone(),
        }
    }

    /// Whether settling `amount` of `asset` on the account surely stays within range.
    fn settle_fits(&self, account_id: AccountId, asset: AssetId, amount: Amount) -> (r: bool)
        ensures
            r == settle_fits_spec(self@, account_id, asset, amount),
            r ==> (self@.accounts.contains_key(account_id) ==> settle_computable(self@.accounts[account_id], asset, amount)),
    {
        match self.accounts.get(&account_id) {
            Some(account) => {
                assert(accounts_view(self.accounts@)[account_id] == account@);
                sum_in_range(account.balance(asset), amount)
            },
            None => true,
        }
    }

    /// Whether refunding the order's remaining collateral surely stays within range.
    fn release_fits(&self, order: &Order) -> (r: bool)
        ensures
            r == release_fits_spec(self@, *order),
            r ==> release_computable(self@, *order),
    {
        let (asset_id, amount) = collateral_for_order(order);
        self.settle_fits(order.account_id(), asset_id, amount)
    }

    /// Whether both credits of a match surely stay within range.
    fn settlement_fits(&self, maker: &Order, taker: &Order, match_result: &MatchResult) -> (r: bool)
        requires
            maker.asset_id() != STABLE_ASSET_ID,
            taker.asset_id() != STABLE_ASSET_ID,
        ensures
            r == settlement_fits_spec(self@, *maker, *taker, *match_result),
            r ==> settlement_computable(self@, *maker, *taker, *match_result),
    {
        if maker.side() == taker.side() {
            return true;
        }
        let (buyer, seller) = if maker.side() == Side::Buy {
            (maker, taker)
        } else {
            (taker, maker)
        };
        let zero = Amount::zero();
        let base = match_result.buyer_base_received;
        let stable = match_result.seller_stable_received;
        let buyer_ok = !crate::amount::decimal_lt(zero, base) || self.settle_fits(buyer.account_id(), buyer.asset_id(), base);
        let seller_ok = !crate::amount::decimal_lt(zero, stable) || self.settle_fits(seller.account_id(), STABLE_ASSET_ID, stable);
        proof {
            lemma_settle_keeps_stable(self@, buyer.account_id(), buyer.asset_id(), base, seller.account_id());
        }
        buyer_ok && seller_ok
    }

    /// Takes the order's collateral from the account and the next id.
    fn debit_account(&mut self, account_id: AccountId, asset_id: AssetId, side: Side, amount: Amount)
        requires
            old(self)@.accounts.contains_key(account_id),
            old(self)@.next_order_id < u64::MAX,
            ({
                let c = balance_of(old(self)@.accounts[account_id].balances, collateral_asset_of(side, asset_id));
                &&& within_range(c.value() - amount.value())
                &&& decimal_sum(c, amount.negate()).value() >= 0
            }),
        ensures
            final(self)@ == debited(old(self)@, account_id, asset_id, side, amount),
    {
        let collateral_asset_id = collateral_asset(side, asset_id);
        let mut account = self.accounts.remove(&account_id).unwrap();
        assert(accounts_view(old(self).accounts@)[account_id] == account@);
        let debit = decimal_neg(amount);
        let settled = account.try_settle(collateral_asset_id, debit);
        assert(settled is Ok);
        self.accounts.insert(account_id, account);
        proof {
            lemma_accounts_view_insert(old(self).accounts@, account_id, account);
            assert(old(self).accounts@.remove(account_id).insert(account_id, account) == old(self).accounts@.insert(account_id, account));
        }
        self.next_order_id = self.next_order_id + 1;
    }
}

impl OrderBook {
    /// Whether processing `taker` surely ends and stays within range: a dry run on
    /// a copy of the book that tests each step before taking it. `false` is
    /// conservative: it comes when a step cannot be shown in range, or after
    /// more passes than the book has orders.
    fn processing_fits(&self, taker: &Order) -> (r: bool)
        ensures
            r == processing_fits_spec(self@, *taker),
            r ==> processing_terminates(self@, *taker),
    {
        let ghost s0 = self@;
        let ghost t0 = *taker;
        let mut book = self.snapshot();
        let mut t = *taker;
        let mut events: Vec<OrderEvent> = Vec::new();
        let len = self.orders.len();
        let mut steps_left: usize = if len < usize::MAX {
            len + 1
        } else {
            len
        };
        let ghost mut done: nat = 0;
        assert(book@.orders.len() == len);
        loop
            invariant
                s0 == self@,
                t0 == *taker,
                processing_fits_spec(s0, t0) == run_fits(book@, t, steps_left as nat),
                forall|f: nat|
                    #[trigger] matching_computable(book@, t, events@, f) ==> matching_computable(
                        s0,
                        t0,
                        Seq::empty(),
                        f + done,
                    ),
            ensures
                forall|f: nat|
                    #[trigger] matching_computable(book@, t, events@, f) ==> matching_computable(
                        s0,
                        t0,
                        Seq::empty(),
                        f + done,
                    ),
                step_computable(book@, t),
                match_step(book@, t, events@) is Stop,
                processing_fits_spec(s0, t0) == finish_fits(book@, t),
            decreases steps_left,
        {
            let ghost s = book@;
            let ghost tt = t;
            let ghost ev = events@;
            if order_filled_by_remaining(&t) {
                break;
            }
            let next = match t.side() {
                Side::Buy => book.sells.best_order_id_for_asset(&book.orders, t.asset_id()),
                Side::Sell => book.buys.best_order_id_for_asset(&book.orders, t.asset_id()),
            };
            let maker_order_id = match next {
                Some(id) => id,
                None => break,
            };
            proof {
                lemma_best_for_asset_known(s.sells_side, s.sells, s.orders, tt.asset_id());
                lemma_best_for_asset_known(s.buys_side, s.buys, s.orders, tt.asset_id());
            }
            if steps_left == 0 {
                return false;
            }
            let mut maker = *book.orders.get(&maker_order_id).unwrap();
            if !book.match_engine.match_fits(&maker, &t) {
                return false;
            }
            let match_result = match book.match_engine.match_orders(&mut maker, &mut t) {
                Ok(r) => r,
                Err(MatchEngineError::OrderPriceMismatch) => break,
                Err(error) => {
                    proof {
                        assert(matching_computable(s, tt, ev, 1));
                        assert(matching_computable(s0, t0, Seq::empty(), 1 + done));
                    }
                    return true;
                },
            };
            events.push(OrderEvent::Matched { taker_order_id: t.id(), maker_order_id, match_result });
            if !book.settlement_fits(&maker, &t, &match_result) {
                return false;
            }
            match book.apply_match_settlement(&maker, &t, &match_result) {
                Ok(()) => {},
                Err(e) => {
                    proof {
                        assert(matching_computable(s, tt, ev, 1));
                        assert(matching_computable(s0, t0, Seq::empty(), 1 + done));
                    }
                    return true;
                },
            }
            if order_filled_by_remaining(&maker) {
                if !book.release_fits(&maker) {
                    return false;
                }
                book.release_for_order(&maker);
                book.remove_resting_order(&maker);
                events.push(OrderEvent::Filled { order_id: maker_order_id });
            } else {
                book.orders.insert(maker_order_id, maker);
            }
            proof {
                assert(step_computable(s, tt));
                assert(match_step(s, tt, ev) == MatchStep::Continue { state: book@, taker: t, events: events@ });
                assert forall|f: nat| #[trigger] matching_computable(book@, t, events@, f) implies matching_computable(
                    s0,
                    t0,
                    Seq::empty(),
                    f + done + 1,
                ) by {
                    assert(matching_computable(s, tt, ev, f + 1));
                }
                done = done + 1;
            }
            steps_left = steps_left - 1;
        }
        let finish_ok = if order_filled_by_remaining(&t) {
            book.release_fits(&t)
        } else {
            match t.tif() {
                Tif::GoodUntilCancelled => true,
                Tif::ImmediateOrCancel => book.release_fits(&t),
            }
        };
        if !finish_ok {
            return false;
        }
        proof {
            assert(matching_computable(book@, t, events@, 1));
            assert(matching_computable(s0, t0, Seq::empty(), 1 + done));
        }
        true
    }

    /// `process_order`, where its run surely ends and stays within range;
    /// otherwise `None`, with the book and the order unchanged.
    pub fn try_process_order(&mut self, taker: &mut Order) -> (r: Option<Result<Vec<OrderEvent>, OrderBookError>>)
        ensures
            r is None <==> !processing_fits_spec(old(self)@, *old(taker)),
            r is None ==> final(self)@ == old(self)@ && *final(taker) == *old(taker),
            r matches Some(res) ==> {
                let (s, t, out) = processing_outcome(old(self)@, *old(taker));
                &&& final(self)@ == s
                &&& *final(taker) == t
                &&& same_result(res, out)
            },
    {
        if self.processing_fits(taker) {
            Some(self.process_order(taker))
        } else {
            None
        }
    }
}

impl OrderBook {
    /// Whether placing this order surely ends and stays within range: the
    /// refusals are decided as `place_order` decides them, then the debit, the
    /// matching and a refund after a failure are tried on a copy of the book.
    /// `false` is conservative, as for the matching.
    fn placement_fits(
        &self,
        account_id: AccountId,
        asset_id: AssetId,
        side: Side,
        kind: OrderKind,
        amount: Amount,
        tif: Option<Tif>,
    ) -> (r: bool)
        ensures
            r == placement_fits_spec(self@, account_id, asset_id, side, kind, amount, tif),
            r ==> placement_computable(self@, account_id, asset_id, side, kind, amount, tif),
    {
        if asset_id == STABLE_ASSET_ID || (kind == OrderKind::Market && tif == Some(Tif::GoodUntilCancelled)) {
            return true;
        }
        let collateral_asset_id = collateral_asset(side, asset_id);
        if crate::amount::decimal_lt(amount, collateral_asset_id.min_amount()) {
            return true;
        }
        let balance = match self.accounts.get(&account_id) {
            Some(account) => {
                assert(accounts_view(self.accounts@)[account_id] == account@);
                account.balance(collateral_asset_id)
            },
            None => return true,
        };
        if !difference_in_range(balance, amount) {
            return false;
        }
        let next = decimal_add(balance, decimal_neg(amount));
        if crate::amount::decimal_lt(next, Amount::zero()) {
            return true;
        }
        if self.next_order_id == u64::MAX {
            return false;
        }
        let mut trial = self.snapshot();
        trial.debit_account(account_id, asset_id, side, amount);
        let tif = match tif {
            Some(t) => t,
            None => Tif::default(),
        };
        let mut order = Order::new(self.next_order_id, account_id, asset_id, side, kind, amount, tif);
        if !trial.processing_fits(&order) {
            return false;
        }
        match trial.process_order(&mut order) {
            Ok(_) => true,
            Err(_) => trial.release_fits(&order),
        }
    }

    /// `place_order`, where placing the order surely ends and stays within range;
    /// otherwise `None`, with the book unchanged.
    pub fn try_place_order(
        &mut self,
        account_id: AccountId,
        asset_id: AssetId,
        side: Side,
        kind: OrderKind,
        amount: Amount,
        tif: Option<Tif>,
    ) -> (r: Option<Result<Vec<OrderEvent>, OrderBookError>>)
        ensures
            r is None <==> !placement_fits_spec(old(self)@, account_id, asset_id, side, kind, amount, tif),
            r is None ==> final(self)@ == old(self)@,
            r matches Some(res) ==> {
                let (s, out) = placement_outcome(old(self)@, account_id, asset_id, side, kind, amount, tif);
                &&& final(self)@ == s
                &&& same_result(res, out)
            },
    {
        if self.placement_fits(account_id, asset_id, side, kind, amount, tif) {
            Some(self.place_order(account_id, asset_id, side, kind, amount, tif))
        } else {
            None
        }
    }
}

} // verus!
