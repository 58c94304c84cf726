//! What every operation of the book keeps: its shape, the order of its ids, and
//! what its matches credit.
use crate::account::{balance_of, totals_with_orders, AccountState};
use crate::match_engine::match_outcome;
use crate::order_book::{
    cancellation_outcome, cancellation_computable, debited, finish, lemma_matching_computable_some, matching,
    placed_order, placement_computable, placement_error, placement_outcome, match_step, next_maker, MatchStep, OrderEvent,
    collateral_asset_of, is_filled, registered, released, resting_copy, settle_in_book, settlement, unregistered,
    with_resting, without_resting, BookState,
};
use crate::match_engine::{trade_sizes, MatchEngineError};
use crate::amount::{decimal_product, decimal_quotient, decimal_sum, Amount};
use crate::conservation::trade_exact;
use crate::types::{
    at_least_as_good, best_price_of, is_best_price, first_for_asset, has_candidate, is_best_level, levels_after_add, levels_after_remove, without, AccountId, AssetId, Order, OrderId, OrderKind, Price, Side,
    Tif, STABLE_ASSET_ID,
};
use vstd::prelude::*;

verus! {

/// Every queued id at every price of a side is a known limit order of that side
/// at that price, and no queue is empty.
pub open spec fn levels_wf(levels: Map<Price, Seq<OrderId>>, side: Side, orders: Map<OrderId, Order>) -> bool {
    &&& levels.dom().finite()
    &&& forall|p: Price| #[trigger] levels.contains_key(p) ==> levels[p].len() > 0
    &&& forall|p: Price, i: int|
        #![trigger levels[p][i]]
        levels.contains_key(p) && 0 <= i < levels[p].len() ==> {
            let id = levels[p][i];
            &&& orders.contains_key(id)
            &&& orders[id].side() == side
            &&& orders[id].kind() == (OrderKind::Limit { price: p })
        }
}

/// A resting order: a limit order of a tradable asset under its own id, issued
/// before the next id, not yet done, and owned by a known account that lists it
/// among its open orders.
pub open spec fn resting_wf(s: BookState, id: OrderId) -> bool {
    let o = s.orders[id];
    &&& o.id() == id
    &&& s.accounts.contains_key(o.account_id())
    &&& s.accounts[o.account_id()].open_orders.contains(id)
    &&& id < s.next_order_id
    &&& o.asset_id() != STABLE_ASSET_ID
    &&& o.kind() is Limit
    &&& !is_filled(o)
}

/// The book is well formed: both sides are what they say, every queued id is a
/// resting order at its price, every resting order is live and listed by its
/// owner, every open order an account lists is its own resting order (so the
/// accounts' open orders and the book stay in sync), and every bid is below
/// every ask.
pub open spec fn book_wf(s: BookState) -> bool {
    &&& s.orders.dom().finite()
    &&& s.accounts.dom().finite()
    &&& s.buys_side == Side::Buy
    &&& s.sells_side == Side::Sell
    &&& levels_wf(s.buys, Side::Buy, s.orders)
    &&& levels_wf(s.sells, Side::Sell, s.orders)
    &&& forall|id: OrderId| #[trigger] s.orders.contains_key(id) ==> resting_wf(s, id)
    &&& forall|k: AccountId, id: OrderId|
        s.accounts.contains_key(k) && #[trigger] s.accounts[k].open_orders.contains(id) ==> s.orders.contains_key(id)
            && s.orders[id].account_id() == k
    &&& forall|pb: Price, ps: Price| s.buys.contains_key(pb) && s.sells.contains_key(ps) ==> pb < ps
}

/// Only balances differ between the two books.
pub open spec fn same_but_balances(s: BookState, t: BookState) -> bool {
    &&& t.next_order_id == s.next_order_id
    &&& t.orders == s.orders
    &&& t.buys_side == s.buys_side
    &&& t.buys == s.buys
    &&& t.sells_side == s.sells_side
    &&& t.sells == s.sells
    &&& t.assets == s.assets
    &&& t.accounts.dom() == s.accounts.dom()
    &&& forall|k: AccountId| #[trigger] t.accounts.contains_key(k) ==> t.accounts[k].open_orders == s.accounts[k].open_orders
}

proof fn lemma_same_but_balances_wf(s: BookState, t: BookState)
    requires
        book_wf(s),
        same_but_balances(s, t),
    ensures
        book_wf(t),
{
    assert forall|k: AccountId, id: OrderId|
        t.accounts.contains_key(k) && #[trigger] t.accounts[k].open_orders.contains(id) implies t.orders.contains_key(id)
            && t.orders[id].account_id() == k by {
        assert(s.accounts[k].open_orders.contains(id));
    }
    assert forall|id: OrderId| #[trigger] t.orders.contains_key(id) implies resting_wf(t, id) by {
        assert(resting_wf(s, id));
    }
}

proof fn lemma_settle_in_book_balances(s: BookState, k: AccountId, asset: AssetId, amount: crate::amount::Amount)
    ensures
        same_but_balances(s, settle_in_book(s, k, asset, amount)),
{
    let t = settle_in_book(s, k, asset, amount);
    if s.accounts.contains_key(k) {
        assert(t.accounts.dom() == s.accounts.dom());
    }
}

pub proof fn lemma_released_wf(s: BookState, o: Order)
    requires
        book_wf(s),
    ensures
        book_wf(released(s, o)),
        same_but_balances(s, released(s, o)),
{
    lemma_settle_in_book_balances(s, o.account_id(), collateral_asset_of(o.side(), o.asset_id()), o.amount());
    lemma_same_but_balances_wf(s, released(s, o));
}

pub proof fn lemma_settlement_wf(s: BookState, maker: Order, taker: Order, mr: crate::match_engine::MatchResult)
    requires
        book_wf(s),
    ensures
        book_wf(settlement(s, maker, taker, mr).1),
        same_but_balances(s, settlement(s, maker, taker, mr).1),
{
    if maker.side() != taker.side() {
        let buyer = if maker.side() == Side::Buy { maker } else { taker };
        let seller = if maker.side() == Side::Buy { taker } else { maker };
        let s1 = settle_in_book(s, buyer.account_id(), buyer.asset_id(), mr.buyer_base_received);
        lemma_settle_in_book_balances(s, buyer.account_id(), buyer.asset_id(), mr.buyer_base_received);
        lemma_settle_in_book_balances(s1, seller.account_id(), STABLE_ASSET_ID, mr.seller_stable_received);
        lemma_settle_in_book_balances(s, seller.account_id(), STABLE_ASSET_ID, mr.seller_stable_received);
    }
    lemma_same_but_balances_wf(s, settlement(s, maker, taker, mr).1);
}


/// The maker keeps its id, owner, asset, side, kind and time in force; only its
/// working amount may change.
pub open spec fn same_order_but_amount(a: Order, b: Order) -> bool {
    b == a.with_amount(b.amount())
}

/// Storing the rest of a maker that is not done keeps the book well formed.
pub proof fn lemma_update_maker_wf(s: BookState, id: OrderId, m: Order)
    requires
        book_wf(s),
        s.orders.contains_key(id),
        same_order_but_amount(s.orders[id], m),
        !is_filled(m),
    ensures
        book_wf(BookState { orders: s.orders.insert(id, m), ..s }),
{
    let t = BookState { orders: s.orders.insert(id, m), ..s };
    assert forall|i: OrderId| #[trigger] t.orders.contains_key(i) implies resting_wf(t, i) by {
        assert(resting_wf(s, i));
    }
    assert forall|p: Price, i: int| #![trigger t.buys[p][i]] t.buys.contains_key(p) && 0 <= i < t.buys[p].len() implies {
        let oid = t.buys[p][i];
        &&& t.orders.contains_key(oid)
        &&& t.orders[oid].side() == Side::Buy
        &&& t.orders[oid].kind() == (OrderKind::Limit { price: p })
    } by {
        let oid = s.buys[p][i];
    }
    assert forall|p: Price, i: int| #![trigger t.sells[p][i]] t.sells.contains_key(p) && 0 <= i < t.sells[p].len() implies {
        let oid = t.sells[p][i];
        &&& t.orders.contains_key(oid)
        &&& t.orders[oid].side() == Side::Sell
        &&& t.orders[oid].kind() == (OrderKind::Limit { price: p })
    } by {
        let oid = s.sells[p][i];
    }
    assert forall|k: AccountId, i: OrderId|
        t.accounts.contains_key(k) && #[trigger] t.accounts[k].open_orders.contains(i) implies t.orders.contains_key(i)
            && t.orders[i].account_id() == k by {
    }
}

/// What is left of a queue without `id` was in the queue and is not `id`.
pub proof fn lemma_without_members(ids: Seq<OrderId>, id: OrderId)
    ensures
        forall|i: int| 0 <= i < without(ids, id).len() ==> ids.contains(#[trigger] without(ids, id)[i]) && without(ids, id)[i] != id,
    decreases ids.len(),
{
    reveal_with_fuel(Seq::<_>::filter, 1);
    if ids.len() > 0 {
        let rest = ids.drop_last();
        lemma_without_members(rest, id);
        let w = without(ids, id);
        let wr = without(rest, id);
        assert forall|i: int| 0 <= i < w.len() implies ids.contains(#[trigger] w[i]) && w[i] != id by {
            if i < wr.len() {
                assert(w[i] == wr[i]);
                assert(rest.contains(wr[i]));
                let j = choose|j: int| 0 <= j < rest.len() && rest[j] == wr[i];
                assert(ids[j] == rest[j]);
            } else {
                assert(w[i] == ids.last());
                assert(ids[ids.len() - 1] == ids.last());
            }
        }
    }
}

/// A queue without an id it does not hold is the queue itself.
proof fn lemma_without_absent(ids: Seq<OrderId>, id: OrderId)
    requires
        !ids.contains(id),
    ensures
        without(ids, id) == ids,
    decreases ids.len(),
{
    reveal_with_fuel(Seq::<_>::filter, 1);
    if ids.len() > 0 {
        let rest = ids.drop_last();
        assert(!rest.contains(id)) by {
            if rest.contains(id) {
                let j = choose|j: int| 0 <= j < rest.len() && rest[j] == id;
                assert(ids[j] == id);
            }
        }
        lemma_without_absent(rest, id);
        assert(ids[ids.len() - 1] == ids.last());
        assert(rest.push(ids.last()) == ids);
    }
}

/// Taking out an order just queued at a price gives back the side as it was:
/// removing undoes adding an id that the queue did not hold.
pub proof fn law_remove_undoes_add(levels: Map<Price, Seq<OrderId>>, price: Price, id: OrderId)
    requires
        forall|p: Price| #[trigger] levels.contains_key(p) ==> levels[p].len() > 0,
        levels.contains_key(price) ==> !levels[price].contains(id),
    ensures
        levels_after_remove(levels_after_add(levels, price, id), price, id) == levels,
{
    reveal_with_fuel(Seq::<_>::filter, 1);
    let queue = if levels.contains_key(price) { levels[price] } else { Seq::empty() };
    lemma_without_absent(queue, id);
    assert(queue.push(id).drop_last() == queue);
    assert(without(queue.push(id), id) == queue);
    if levels.contains_key(price) {
        assert(levels.insert(price, queue) == levels);
    } else {
        assert(levels.insert(price, queue.push(id)).remove(price) == levels);
    }
}

/// Removing an id from one queue keeps every other queued id, and only those.
proof fn lemma_levels_after_remove_wf(
    levels: Map<Price, Seq<OrderId>>,
    side: Side,
    orders: Map<OrderId, Order>,
    price: Price,
    id: OrderId,
)
    requires
        levels_wf(levels, side, orders),
        forall|p: Price, i: int|
            #![trigger levels[p][i]]
            levels.contains_key(p) && 0 <= i < levels[p].len() && levels[p][i] == id ==> p == price,
    ensures
        levels_wf(levels_after_remove(levels, price, id), side, orders.remove(id)),
        levels_after_remove(levels, price, id).dom().subset_of(levels.dom()),
{
    let l2 = levels_after_remove(levels, price, id);
    let o2 = orders.remove(id);
    if levels.contains_key(price) {
        let q = without(levels[price], id);
        lemma_without_members(levels[price], id);
        assert forall|p: Price, i: int| #![trigger l2[p][i]] l2.contains_key(p) && 0 <= i < l2[p].len() implies {
            let oid = l2[p][i];
            &&& o2.contains_key(oid)
            &&& o2[oid].side() == side
            &&& o2[oid].kind() == (OrderKind::Limit { price: p })
        } by {
            if p == price {
                let j = choose|j: int| 0 <= j < levels[price].len() && levels[price][j] == q[i];
                assert(levels[price][j] == q[i]);
            } else {
                assert(levels[p][i] == l2[p][i]);
            }
        }
        assert(l2.dom().subset_of(levels.dom()));
    } else {
        assert forall|p: Price, i: int| #![trigger l2[p][i]] l2.contains_key(p) && 0 <= i < l2[p].len() implies {
            let oid = l2[p][i];
            &&& o2.contains_key(oid)
            &&& o2[oid].side() == side
            &&& o2[oid].kind() == (OrderKind::Limit { price: p })
        } by {
            assert(levels[p][i] == l2[p][i]);
        }
    }
}


/// Retiring a resting order keeps the book well formed.
pub proof fn lemma_without_resting_wf(s: BookState, m: Order)
    requires
        book_wf(s),
        s.orders.contains_key(m.id()),
        same_order_but_amount(s.orders[m.id()], m),
    ensures
        book_wf(without_resting(s, m)),
{
    let id = m.id();
    assert(resting_wf(s, id));
    let price = m.kind()->Limit_price;
    let t = without_resting(s, m);
    let s1 = match m.side() {
        Side::Buy => BookState { buys: levels_after_remove(s.buys, price, id), ..s },
        Side::Sell => BookState { sells: levels_after_remove(s.sells, price, id), ..s },
    };
    let s2 = BookState { orders: s1.orders.remove(id), ..s1 };
    assert(t == unregistered(s2, m.account_id(), id));
    // Where the order is queued: only at its own price on its own side.
    assert forall|p: Price, i: int| #![trigger s.buys[p][i]]
        s.buys.contains_key(p) && 0 <= i < s.buys[p].len() && s.buys[p][i] == id implies p == price && m.side() == Side::Buy by {
    }
    assert forall|p: Price, i: int| #![trigger s.sells[p][i]]
        s.sells.contains_key(p) && 0 <= i < s.sells[p].len() && s.sells[p][i] == id implies p == price && m.side() == Side::Sell by {
    }
    match m.side() {
        Side::Buy => {
            lemma_levels_after_remove_wf(s.buys, Side::Buy, s.orders, price, id);
            assert forall|p: Price, i: int| #![trigger s2.sells[p][i]] s2.sells.contains_key(p) && 0 <= i < s2.sells[p].len() implies {
                let oid = s2.sells[p][i];
                &&& s2.orders.contains_key(oid)
                &&& s2.orders[oid].side() == Side::Sell
                &&& s2.orders[oid].kind() == (OrderKind::Limit { price: p })
            } by {
                assert(s.sells[p][i] != id);
            }
        },
        Side::Sell => {
            lemma_levels_after_remove_wf(s.sells, Side::Sell, s.orders, price, id);
            assert forall|p: Price, i: int| #![trigger s2.buys[p][i]] s2.buys.contains_key(p) && 0 <= i < s2.buys[p].len() implies {
                let oid = s2.buys[p][i];
                &&& s2.orders.contains_key(oid)
                &&& s2.orders[oid].side() == Side::Buy
                &&& s2.orders[oid].kind() == (OrderKind::Limit { price: p })
            } by {
                assert(s.buys[p][i] != id);
            }
        },
    }
    assert forall|i: OrderId| #[trigger] t.orders.contains_key(i) implies resting_wf(t, i) by {
        assert(resting_wf(s, i));
    }
    assert forall|k: AccountId, i: OrderId|
        t.accounts.contains_key(k) && #[trigger] t.accounts[k].open_orders.contains(i) implies t.orders.contains_key(i)
            && t.orders[i].account_id() == k by {
        assert(s.accounts.contains_key(k));
        if k == m.account_id() {
            assert(s.accounts[k].open_orders.contains(i));
        } else {
            assert(s.accounts[k].open_orders.contains(i));
        }
    }
    assert forall|pb: Price, ps: Price| t.buys.contains_key(pb) && t.sells.contains_key(ps) implies pb < ps by {
        assert(s.buys.contains_key(pb) && s.sells.contains_key(ps));
    }
}


/// A taker not yet in the book: fresh id, tradable asset, known owner.
pub open spec fn fresh_taker(s: BookState, t: Order) -> bool {
    &&& !s.orders.contains_key(t.id())
    &&& s.accounts.contains_key(t.account_id())
    &&& t.id() < s.next_order_id
    &&& t.asset_id() != STABLE_ASSET_ID
}

/// Resting the taker's limit price would not cross the other side.
pub open spec fn rests_below_spread(s: BookState, t: Order) -> bool {
    match t.kind() {
        OrderKind::Market => true,
        OrderKind::Limit { price } => match t.side() {
            Side::Buy => forall|ps: Price| #[trigger] s.sells.contains_key(ps) ==> price < ps,
            Side::Sell => forall|pb: Price| #[trigger] s.buys.contains_key(pb) ==> pb < price,
        },
    }
}

/// Adding an id at the back of one queue keeps the other queues and the new id well formed.
proof fn lemma_levels_after_add_wf(
    levels: Map<Price, Seq<OrderId>>,
    side: Side,
    orders: Map<OrderId, Order>,
    price: Price,
    o: Order,
)
    requires
        levels_wf(levels, side, orders),
        !orders.contains_key(o.id()),
        o.side() == side,
        o.kind() == (OrderKind::Limit { price }),
    ensures
        levels_wf(levels_after_add(levels, price, o.id()), side, orders.insert(o.id(), o)),
        levels_after_add(levels, price, o.id()).dom() == levels.dom().insert(price),
{
    let l2 = levels_after_add(levels, price, o.id());
    let o2 = orders.insert(o.id(), o);
    assert forall|p: Price, i: int| #![trigger l2[p][i]] l2.contains_key(p) && 0 <= i < l2[p].len() implies {
        let oid = l2[p][i];
        &&& o2.contains_key(oid)
        &&& o2[oid].side() == side
        &&& o2[oid].kind() == (OrderKind::Limit { price: p })
    } by {
        if p == price && i == l2[p].len() - 1 {
        } else {
            assert(levels[p][i] == l2[p][i]);
            assert(levels[p][i] != o.id());
        }
    }
    assert(l2.dom() == levels.dom().insert(price));
}

/// Resting a live, fresh limit taker below the spread keeps the book well formed.
pub proof fn lemma_with_resting_wf(s: BookState, t: Order)
    requires
        book_wf(s),
        fresh_taker(s, t),
        !is_filled(t),
        rests_below_spread(s, t),
    ensures
        book_wf(with_resting(s, t)),
{
    if let OrderKind::Limit { price } = t.kind() {
        let id = t.id();
        let o = resting_copy(t);
        let r = with_resting(s, t);
        let s1 = match t.side() {
            Side::Buy => BookState { buys: levels_after_add(s.buys, price, id), ..s },
            Side::Sell => BookState { sells: levels_after_add(s.sells, price, id), ..s },
        };
        let s2 = registered(s1, t.account_id(), id);
        assert(r == BookState { orders: s2.orders.insert(id, o), ..s2 });
        match t.side() {
            Side::Buy => {
                lemma_levels_after_add_wf(s.buys, Side::Buy, s.orders, price, o);
                assert forall|p: Price, i: int| #![trigger r.sells[p][i]] r.sells.contains_key(p) && 0 <= i < r.sells[p].len() implies {
                    let oid = r.sells[p][i];
                    &&& r.orders.contains_key(oid)
                    &&& r.orders[oid].side() == Side::Sell
                    &&& r.orders[oid].kind() == (OrderKind::Limit { price: p })
                } by {
                    assert(s.sells[p][i] != id);
                }
            },
            Side::Sell => {
                lemma_levels_after_add_wf(s.sells, Side::Sell, s.orders, price, o);
                assert forall|p: Price, i: int| #![trigger r.buys[p][i]] r.buys.contains_key(p) && 0 <= i < r.buys[p].len() implies {
                    let oid = r.buys[p][i];
                    &&& r.orders.contains_key(oid)
                    &&& r.orders[oid].side() == Side::Buy
                    &&& r.orders[oid].kind() == (OrderKind::Limit { price: p })
                } by {
                    assert(s.buys[p][i] != id);
                }
            },
        }
        assert forall|i: OrderId| #[trigger] r.orders.contains_key(i) implies resting_wf(r, i) by {
            if i != id {
                assert(resting_wf(s, i));
            }
        }
        assert forall|k: AccountId, i: OrderId|
            r.accounts.contains_key(k) && #[trigger] r.accounts[k].open_orders.contains(i) implies r.orders.contains_key(i)
                && r.orders[i].account_id() == k by {
            if i != id {
                assert(s.accounts[k].open_orders.contains(i));
            } else {
                if k != t.account_id() {
                    assert(s.accounts[k].open_orders.contains(i));
                }
            }
        }
        assert forall|pb: Price, ps: Price| r.buys.contains_key(pb) && r.sells.contains_key(ps) implies pb < ps by {
            if t.side() == Side::Buy && pb == price {
            } else if t.side() == Side::Sell && ps == price {
            } else {
                assert(s.buys.contains_key(pb) && s.sells.contains_key(ps));
            }
        }
    }
}


/// A finite, non-empty set of prices has a best one for the side.
pub proof fn lemma_best_price_exists(side: Side, prices: Set<Price>)
    requires
        prices.finite(),
        prices.len() > 0,
    ensures
        exists|p: Price| prices.contains(p) && forall|q: Price| #[trigger] prices.contains(q) ==> at_least_as_good(side, p, q),
    decreases prices.len(),
{
    let x = prices.choose();
    assert(prices.contains(x));
    if prices.len() == 1 {
        assert forall|q: Price| #[trigger] prices.contains(q) implies at_least_as_good(side, x, q) by {
            if q != x {
                assert(prices.remove(x).contains(q));
                assert(prices.remove(x).len() == 0);
            }
        }
    } else {
        let rest = prices.remove(x);
        lemma_best_price_exists(side, rest);
        let p = choose|p: Price| rest.contains(p) && forall|q: Price| #[trigger] rest.contains(q) ==> at_least_as_good(side, p, q);
        if at_least_as_good(side, x, p) {
            assert forall|q: Price| #[trigger] prices.contains(q) implies at_least_as_good(side, x, q) by {
                if q != x {
                    assert(rest.contains(q));
                }
            }
        } else {
            assert forall|q: Price| #[trigger] prices.contains(q) implies at_least_as_good(side, p, q) by {
                if q != x {
                    assert(rest.contains(q));
                }
            }
        }
    }
}

/// The first id found for an asset is in the queue.
pub proof fn lemma_first_for_asset_member(ids: Seq<OrderId>, orders: Map<OrderId, Order>, asset: AssetId)
    ensures
        first_for_asset(ids, orders, asset) matches Some(id) ==> ids.contains(id),
    decreases ids.len(),
{
    if ids.len() > 0 {
        lemma_first_for_asset_member(ids.drop_first(), orders, asset);
        if let Some(id) = first_for_asset(ids.drop_first(), orders, asset) {
            if !(orders.contains_key(ids[0]) && orders[ids[0]].asset_id() == asset) {
                let j = choose|j: int| 0 <= j < ids.drop_first().len() && ids.drop_first()[j] == id;
                assert(ids[j + 1] == id);
            }
        }
    }
}

/// The only tradable asset is bitcoin.
proof fn lemma_single_tradable_asset(a: AssetId, b: AssetId)
    requires
        a != STABLE_ASSET_ID,
        b != STABLE_ASSET_ID,
    ensures
        a == b,
{
}

/// In a well-formed book the order a taker meets is a queued limit order at the
/// best price; and when there is none, the other side is empty.
pub proof fn lemma_next_maker_shape(s: BookState, t: Order)
    requires
        book_wf(s),
        t.asset_id() != STABLE_ASSET_ID,
    ensures
        ({
            let (side, levels) = match t.side() {
                Side::Buy => (s.sells_side, s.sells),
                Side::Sell => (s.buys_side, s.buys),
            };
            &&& next_maker(s, t) is None ==> levels.dom().len() == 0
            &&& next_maker(s, t) matches Some(id) ==> {
                let price = s.orders[id].kind()->Limit_price;
                &&& s.orders.contains_key(id)
                &&& s.orders[id].side() != t.side()
                &&& s.orders[id].kind() == (OrderKind::Limit { price })
                &&& t.side() == Side::Buy ==> forall|q: Price| #[trigger] s.sells.contains_key(q) ==> price <= q
                &&& t.side() == Side::Sell ==> forall|q: Price| #[trigger] s.buys.contains_key(q) ==> q <= price
            }
        }),
{
    let (side, levels) = match t.side() {
        Side::Buy => (s.sells_side, s.sells),
        Side::Sell => (s.buys_side, s.buys),
    };
    let asset = t.asset_id();
    // Every level has a candidate: its first order trades the one tradable asset.
    assert forall|p: Price| #[trigger] levels.contains_key(p) implies has_candidate(levels, s.orders, asset, p) by {
        let id0 = levels[p][0];
        assert(s.orders.contains_key(id0));
        assert(resting_wf(s, id0));
        lemma_single_tradable_asset(s.orders[id0].asset_id(), asset);
    }
    if levels.dom().len() > 0 {
        lemma_best_price_exists(side, levels.dom());
        let p = choose|p: Price| levels.dom().contains(p) && forall|q: Price| #[trigger] levels.dom().contains(q) ==> at_least_as_good(side, p, q);
        assert(is_best_level(side, levels, s.orders, asset, p));
    }
    if let Some(id) = next_maker(s, t) {
        assert(exists|p: Price| is_best_level(side, levels, s.orders, asset, p));
        let p = choose|p: Price| is_best_level(side, levels, s.orders, asset, p);
        assert(first_for_asset(levels[p], s.orders, asset) == Some(id));
        lemma_first_for_asset_member(levels[p], s.orders, asset);
        let j = choose|j: int| 0 <= j < levels[p].len() && levels[p][j] == id;
        assert(levels[p][j] == id);
        assert forall|q: Price| #[trigger] levels.contains_key(q) implies at_least_as_good(side, p, q) by {
            assert(has_candidate(levels, s.orders, asset, q));
        }
    }
}


/// The book's shape after one pass of the matching loop, and the taker's.
pub open spec fn step_keeps_shape(s: BookState, t: Order, events: Seq<OrderEvent>) -> bool {
    match match_step(s, t, events) {
        MatchStep::Continue { state, taker, .. } => {
            &&& book_wf(state)
            &&& fresh_taker(state, taker)
            &&& same_order_but_amount(t, taker)
        },
        MatchStep::Stop { state, taker, .. } => {
            &&& book_wf(state)
            &&& fresh_taker(state, taker)
            &&& same_order_but_amount(t, taker)
            &&& !is_filled(taker) ==> rests_below_spread(state, taker)
        },
        MatchStep::Fail { state, taker, .. } => {
            &&& book_wf(state)
            &&& fresh_taker(state, taker)
            &&& same_order_but_amount(t, taker)
        },
    }
}

/// One pass of the matching loop keeps the book well formed, and when it stops
/// with a live taker, the taker's price does not reach the other side.
pub proof fn lemma_step_keeps_shape(s: BookState, t: Order, events: Seq<OrderEvent>)
    requires
        book_wf(s),
        fresh_taker(s, t),
    ensures
        step_keeps_shape(s, t, events),
{
    if !is_filled(t) {
        lemma_next_maker_shape(s, t);
        let levels = match t.side() {
            Side::Buy => s.sells,
            Side::Sell => s.buys,
        };
        match next_maker(s, t) {
            None => {
                assert forall|p: Price| !levels.contains_key(p) by {
                    if levels.contains_key(p) {
                        assert(levels.dom().contains(p));
                    }
                }
                assert(rests_below_spread(s, t));
                assert(step_keeps_shape(s, t, events));
            },
            Some(maker_id) => {
                let maker = s.orders[maker_id];
                assert(resting_wf(s, maker_id));
                let (r, m2, t2) = match_outcome(s.assets, maker, t);
                assert(same_order_but_amount(maker, m2));
                assert(same_order_but_amount(t, t2));
                match r {
                    Ok(mr) => {
                        let (sr, s2) = settlement(s, m2, t2, mr);
                        lemma_settlement_wf(s, m2, t2, mr);
                        if sr is Ok {
                            if is_filled(m2) {
                                let s3 = released(s2, m2);
                                lemma_released_wf(s2, m2);
                                lemma_without_resting_wf(s3, m2);
                            } else {
                                lemma_update_maker_wf(s2, maker_id, m2);
                            }
                        }
                        assert(step_keeps_shape(s, t, events));
                    },
                    Err(e) => {
                        assert(t2 == t);
                        if e == MatchEngineError::OrderPriceMismatch {
                            let price = maker.kind()->Limit_price;
                            assert(maker.kind() == (OrderKind::Limit { price }));
                            assert(!crate::match_engine::crosses(maker, t, price));
                            if let OrderKind::Limit { price: q } = t.kind() {
                                match t.side() {
                                    Side::Buy => {
                                        assert(maker.side() == Side::Sell);
                                        assert(q < price);
                                        assert forall|ps: Price| #[trigger] s.sells.contains_key(ps) implies q < ps by {
                                            assert(price <= ps);
                                        }
                                    },
                                    Side::Sell => {
                                        assert(maker.side() == Side::Buy);
                                        assert(q > price);
                                        assert forall|pb: Price| #[trigger] s.buys.contains_key(pb) implies pb < q by {
                                            assert(pb <= price);
                                        }
                                    },
                                }
                            }
                            assert(rests_below_spread(s, t));
                        }
                        assert(step_keeps_shape(s, t, events));
                    },
                }
            },
        }
    }
}


/// The matching loop, run to its end, leaves a well-formed book, and so does the
/// refund that follows a failure.
pub proof fn lemma_matching_keeps_shape(s: BookState, t: Order, events: Seq<OrderEvent>, fuel: nat)
    requires
        book_wf(s),
        fresh_taker(s, t),
        matching(s, t, events, fuel) is Some,
    ensures
        ({
            let (s2, t2, res) = matching(s, t, events, fuel).unwrap();
            &&& book_wf(s2)
            &&& res is Err ==> book_wf(released(s2, t2))
        }),
    decreases fuel,
{
    lemma_step_keeps_shape(s, t, events);
    match match_step(s, t, events) {
        MatchStep::Continue { state, taker, events } => {
            lemma_matching_keeps_shape(state, taker, events, (fuel - 1) as nat);
        },
        MatchStep::Stop { state, taker, events } => {
            if is_filled(taker) {
                lemma_released_wf(state, taker);
            } else {
                match taker.tif() {
                    Tif::GoodUntilCancelled => lemma_with_resting_wf(state, taker),
                    Tif::ImmediateOrCancel => lemma_released_wf(state, taker),
                }
            }
        },
        MatchStep::Fail { state, taker, .. } => {
            lemma_released_wf(state, taker);
        },
    }
}

/// Taking the collateral and the next id keeps the book well formed.
pub proof fn lemma_debited_wf(s: BookState, account_id: AccountId, asset_id: AssetId, side: Side, amount: crate::amount::Amount)
    requires
        book_wf(s),
        s.accounts.contains_key(account_id),
        s.next_order_id < u64::MAX,
    ensures
        book_wf(debited(s, account_id, asset_id, side, amount)),
{
    let t = debited(s, account_id, asset_id, side, amount);
    assert(t.accounts.dom() == s.accounts.dom());
    assert forall|k: AccountId, id: OrderId|
        t.accounts.contains_key(k) && #[trigger] t.accounts[k].open_orders.contains(id) implies t.orders.contains_key(id)
            && t.orders[id].account_id() == k by {
        assert(s.accounts[k].open_orders.contains(id));
    }
    assert forall|id: OrderId| #[trigger] t.orders.contains_key(id) implies resting_wf(t, id) by {
        assert(resting_wf(s, id));
    }
}

/// Placing an order keeps the book well formed: every bid stays below every ask,
/// every resting order is live, and the accounts' open orders are exactly the
/// resting orders they own.
pub proof fn law_place_order_keeps_book_well_formed(
    s: BookState,
    account_id: AccountId,
    asset_id: AssetId,
    side: Side,
    kind: OrderKind,
    amount: crate::amount::Amount,
    tif: Option<Tif>,
)
    requires
        book_wf(s),
        placement_computable(s, account_id, asset_id, side, kind, amount, tif),
    ensures
        book_wf(placement_outcome(s, account_id, asset_id, side, kind, amount, tif).0),
{
    if placement_error(s, account_id, asset_id, side, kind, amount, tif) is None {
        let s1 = debited(s, account_id, asset_id, side, amount);
        let order = placed_order(s, account_id, asset_id, side, kind, amount, tif);
        lemma_debited_wf(s, account_id, asset_id, side, amount);
        if s.orders.contains_key(order.id()) {
            assert(resting_wf(s, order.id()));
        }
        assert(fresh_taker(s1, order));
        let fuel = choose|fuel: nat| crate::order_book::matching_computable(s1, order, Seq::empty(), fuel);
        lemma_matching_computable_some(s1, order, Seq::empty(), fuel);
        lemma_matching_keeps_shape(s1, order, Seq::empty(), fuel);
    }
}

/// The matching loop leaves the next id alone.
proof fn lemma_matching_keeps_next_id(s: BookState, t: Order, events: Seq<OrderEvent>, fuel: nat)
    requires
        matching(s, t, events, fuel) is Some,
    ensures
        matching(s, t, events, fuel).unwrap().0.next_order_id == s.next_order_id,
    decreases fuel,
{
    match match_step(s, t, events) {
        MatchStep::Continue { state, taker, events } => {
            lemma_matching_keeps_next_id(state, taker, events, (fuel - 1) as nat);
        },
        _ => {},
    }
}

/// Order ids are handed out in sequence: an accepted order takes the next id and
/// the next id moves up by one; a refused order leaves it where it was.
pub proof fn law_place_order_takes_next_id(
    s: BookState,
    account_id: AccountId,
    asset_id: AssetId,
    side: Side,
    kind: OrderKind,
    amount: crate::amount::Amount,
    tif: Option<Tif>,
)
    requires
        placement_computable(s, account_id, asset_id, side, kind, amount, tif),
    ensures
        placement_outcome(s, account_id, asset_id, side, kind, amount, tif).0.next_order_id == if placement_error(
            s,
            account_id,
            asset_id,
            side,
            kind,
            amount,
            tif,
        ) is None {
            s.next_order_id + 1
        } else {
            s.next_order_id as int
        },
        placement_error(s, account_id, asset_id, side, kind, amount, tif) is None ==> placed_order(
            s,
            account_id,
            asset_id,
            side,
            kind,
            amount,
            tif,
        ).id() == s.next_order_id,
{
    if placement_error(s, account_id, asset_id, side, kind, amount, tif) is None {
        let s1 = debited(s, account_id, asset_id, side, amount);
        let order = placed_order(s, account_id, asset_id, side, kind, amount, tif);
        let fuel = choose|fuel: nat| crate::order_book::matching_computable(s1, order, Seq::empty(), fuel);
        lemma_matching_computable_some(s1, order, Seq::empty(), fuel);
        lemma_matching_keeps_next_id(s1, order, Seq::empty(), fuel);
    }
}

/// The matching loop never stores the taker, except when its end rests a
/// good-until-cancelled limit taker; the taker keeps its id.
proof fn lemma_matching_rests_taker(s: BookState, t: Order, events: Seq<OrderEvent>, fuel: nat)
    requires
        book_wf(s),
        fresh_taker(s, t),
        matching(s, t, events, fuel) is Some,
    ensures
        ({
            let (s2, t2, res) = matching(s, t, events, fuel).unwrap();
            &&& t2.id() == t.id()
            &&& s2.orders.contains_key(t.id()) ==> {
                &&& res is Ok
                &&& t.kind() is Limit
                &&& t.tif() == Tif::GoodUntilCancelled
                &&& s2.orders[t.id()].tif() == Tif::GoodUntilCancelled
            }
        }),
    decreases fuel,
{
    lemma_step_keeps_shape(s, t, events);
    match match_step(s, t, events) {
        MatchStep::Continue { state, taker, events } => {
            lemma_matching_rests_taker(state, taker, events, (fuel - 1) as nat);
        },
        _ => {},
    }
}

/// An order rests only as a good-until-cancelled limit order: a market order and
/// an immediate-or-cancel order leave nothing in the book under their id.
pub proof fn law_only_good_until_cancelled_limits_rest(
    s: BookState,
    account_id: AccountId,
    asset_id: AssetId,
    side: Side,
    kind: OrderKind,
    amount: crate::amount::Amount,
    tif: Option<Tif>,
)
    requires
        book_wf(s),
        placement_computable(s, account_id, asset_id, side, kind, amount, tif),
    ensures
        ({
            let s2 = placement_outcome(s, account_id, asset_id, side, kind, amount, tif).0;
            s2.orders.contains_key(s.next_order_id) ==> {
                &&& kind is Limit
                &&& crate::order_book::tif_or_default(tif) == Tif::GoodUntilCancelled
                &&& s2.orders[s.next_order_id].tif() == Tif::GoodUntilCancelled
            }
        }),
{
    if s.orders.contains_key(s.next_order_id) {
        assert(resting_wf(s, s.next_order_id));
    }
    if placement_error(s, account_id, asset_id, side, kind, amount, tif) is None {
        let s1 = debited(s, account_id, asset_id, side, amount);
        let order = placed_order(s, account_id, asset_id, side, kind, amount, tif);
        lemma_debited_wf(s, account_id, asset_id, side, amount);
        assert(fresh_taker(s1, order));
        let fuel = choose|fuel: nat| crate::order_book::matching_computable(s1, order, Seq::empty(), fuel);
        lemma_matching_computable_some(s1, order, Seq::empty(), fuel);
        lemma_matching_rests_taker(s1, order, Seq::empty(), fuel);
    }
}

/// Each match among the events credits the buyer with exactly the base traded.
pub open spec fn matches_credit_traded(events: Seq<OrderEvent>) -> bool {
    forall|i: int|
        0 <= i < events.len() && (#[trigger] events[i]) is Matched ==> events[i]->match_result.buyer_base_received
            == events[i]->match_result.amount_traded
}

/// The matching loop only adds matches that credit the base traded.
proof fn lemma_matching_credits_traded(s: BookState, t: Order, events: Seq<OrderEvent>, fuel: nat)
    requires
        matching(s, t, events, fuel) is Some,
        matches_credit_traded(events),
    ensures
        matching(s, t, events, fuel).unwrap().2 matches Ok(ev) ==> matches_credit_traded(ev),
    decreases fuel,
{
    let step = match_step(s, t, events);
    let step_events = match step {
        MatchStep::Continue { events, .. } => events,
        MatchStep::Stop { events, .. } => events,
        MatchStep::Fail { .. } => events,
    };
    if !is_filled(t) {
        if let Some(maker_id) = next_maker(s, t) {
            let (r, maker, t2) = match_outcome(s.assets, s.orders[maker_id], t);
            if let Ok(mr) = r {
                let ev = events.push(OrderEvent::Matched { taker_order_id: t2.id(), maker_order_id: maker_id, match_result: mr });
                assert(mr.buyer_base_received == mr.amount_traded);
                assert(matches_credit_traded(ev)) by {
                    assert forall|i: int| 0 <= i < ev.len() && (#[trigger] ev[i]) is Matched implies ev[i]->match_result.buyer_base_received
                        == ev[i]->match_result.amount_traded by {
                        if i < events.len() {
                            assert(ev[i] == events[i]);
                        }
                    }
                }
                let ev2 = ev.push(OrderEvent::Filled { order_id: maker_id });
                assert(matches_credit_traded(ev2)) by {
                    assert forall|i: int| 0 <= i < ev2.len() && (#[trigger] ev2[i]) is Matched implies ev2[i]->match_result.buyer_base_received
                        == ev2[i]->match_result.amount_traded by {
                        if i < ev.len() {
                            assert(ev2[i] == ev[i]);
                        }
                    }
                }
            }
        }
    }
    assert(matches_credit_traded(step_events));
    match step {
        MatchStep::Continue { state, taker, events } => {
            lemma_matching_credits_traded(state, taker, events, (fuel - 1) as nat);
        },
        MatchStep::Stop { state, taker, events } => {
            if let (_, Ok(e2)) = finish(state, taker, events) {
                assert forall|i: int| 0 <= i < e2.len() && (#[trigger] e2[i]) is Matched implies e2[i]->match_result.buyer_base_received
                    == e2[i]->match_result.amount_traded by {
                    if i < events.len() {
                        assert(e2[i] == events[i]);
                    }
                }
            }
        },
        MatchStep::Fail { .. } => {},
    }
}

/// Every match reported for an order credits the buyer with exactly the base traded.
pub proof fn law_place_order_matches_credit_traded(
    s: BookState,
    account_id: AccountId,
    asset_id: AssetId,
    side: Side,
    kind: OrderKind,
    amount: crate::amount::Amount,
    tif: Option<Tif>,
)
    requires
        placement_computable(s, account_id, asset_id, side, kind, amount, tif),
    ensures
        placement_outcome(s, account_id, asset_id, side, kind, amount, tif).1 matches Ok(events) ==> matches_credit_traded(events),
{
    if placement_error(s, account_id, asset_id, side, kind, amount, tif) is None {
        let s1 = debited(s, account_id, asset_id, side, amount);
        let order = placed_order(s, account_id, asset_id, side, kind, amount, tif);
        let fuel = choose|fuel: nat| crate::order_book::matching_computable(s1, order, Seq::empty(), fuel);
        lemma_matching_computable_some(s1, order, Seq::empty(), fuel);
        lemma_matching_credits_traded(s1, order, Seq::empty(), fuel);
    }
}

/// Cancelling an order keeps the book well formed.
pub proof fn law_cancel_order_keeps_book_well_formed(s: BookState, account_id: AccountId, order_id: OrderId)
    requires
        book_wf(s),
        cancellation_computable(s, account_id, order_id),
    ensures
        book_wf(cancellation_outcome(s, account_id, order_id).0),
{
    if s.orders.contains_key(order_id) && s.orders[order_id].account_id() == account_id {
        let order = s.orders[order_id];
        assert(resting_wf(s, order_id));
        lemma_without_resting_wf(s, order);
        let s1 = released(without_resting(s, order), order);
        lemma_released_wf(without_resting(s, order), order);
        if s1.accounts.contains_key(account_id) {
            let t = unregistered(s1, account_id, order_id);
            assert(t.accounts.dom() == s1.accounts.dom());
            assert forall|k: AccountId, id: OrderId|
                t.accounts.contains_key(k) && #[trigger] t.accounts[k].open_orders.contains(id) implies t.orders.contains_key(id)
                    && t.orders[id].account_id() == k by {
                assert(s1.accounts[k].open_orders.contains(id));
            }
            assert forall|id: OrderId| #[trigger] t.orders.contains_key(id) implies resting_wf(t, id) by {
                assert(resting_wf(s1, id));
            }
        }
    }
}

/// Adding an account keeps the book well formed when the open orders it lists
/// are exactly the resting orders of its id (a new account lists none and owns none).
pub proof fn law_add_account_keeps_book_well_formed(s: BookState, account: AccountState)
    requires
        book_wf(s),
        forall|id: OrderId| #[trigger] account.open_orders.contains(id) ==> s.orders.contains_key(id) && s.orders[id].account_id() == account.id,
        forall|id: OrderId| #[trigger] s.orders.contains_key(id) && s.orders[id].account_id() == account.id ==> account.open_orders.contains(id),
    ensures
        book_wf(BookState { accounts: s.accounts.insert(account.id, account), ..s }),
{
    let t = BookState { accounts: s.accounts.insert(account.id, account), ..s };
    assert forall|k: AccountId, id: OrderId|
        t.accounts.contains_key(k) && #[trigger] t.accounts[k].open_orders.contains(id) implies t.orders.contains_key(id)
            && t.orders[id].account_id() == k by {
        if k != account.id {
            assert(s.accounts[k].open_orders.contains(id));
        }
    }
    assert forall|id: OrderId| #[trigger] t.orders.contains_key(id) implies resting_wf(t, id) by {
        assert(resting_wf(s, id));
    }
}

/// In a well-formed book the best bid is below the best ask.
pub proof fn law_best_bid_below_best_ask(s: BookState)
    requires
        book_wf(s),
    ensures
        best_price_of(s.buys_side, s.buys) matches Some(bid) ==> (best_price_of(s.sells_side, s.sells) matches Some(ask)
            ==> bid < ask),
{
    if let Some(bid) = best_price_of(s.buys_side, s.buys) {
        if let Some(ask) = best_price_of(s.sells_side, s.sells) {
            assert(is_best_price(s.buys_side, s.buys, bid));
            assert(is_best_price(s.sells_side, s.sells, ask));
        }
    }
}

/// One pass of the matching loop is exact: the trade moves exactly what is
/// credited, and the buyer's budget divided by the maker's price and multiplied
/// back by it is the budget again.
pub open spec fn step_divides_exactly(s: BookState, t: Order) -> bool {
    (!is_filled(t) && next_maker(s, t) is Some) ==> {
        let maker = s.orders[next_maker(s, t)->0];
        let (r, m2, t2) = match_outcome(s.assets, maker, t);
        let buy = if maker.side() == Side::Buy { maker } else { t };
        let p = Amount::integer(maker.kind()->Limit_price as int);
        r matches Ok(mr) ==> {
            &&& trade_exact(maker, t, m2, t2, mr)
            &&& decimal_product(decimal_quotient(buy.amount(), p), p).value() == buy.amount().value()
        }
    }
}

/// Every pass of the matching loop, for at most `fuel` passes, is exact.
pub open spec fn run_divides_exactly(s: BookState, t: Order, events: Seq<OrderEvent>, fuel: nat) -> bool
    decreases fuel,
{
    if fuel == 0 {
        true
    } else {
        &&& step_divides_exactly(s, t)
        &&& match match_step(s, t, events) {
            MatchStep::Continue { state, taker, events } => run_divides_exactly(state, taker, events, (fuel - 1) as nat),
            _ => true,
        }
    }
}

/// An exact match leaves its maker or its taker done: it takes all of the sell,
/// or all of the buyer's budget.
proof fn lemma_exact_match_finishes_a_side(s: BookState, t: Order)
    requires
        book_wf(s),
        fresh_taker(s, t),
        step_divides_exactly(s, t),
        !is_filled(t),
        next_maker(s, t) is Some,
    ensures
        ({
            let maker = s.orders[next_maker(s, t)->0];
            let (r, m2, t2) = match_outcome(s.assets, maker, t);
            r is Ok ==> is_filled(m2) || is_filled(t2)
        }),
{
    let maker = s.orders[next_maker(s, t)->0];
    let (r, m2, t2) = match_outcome(s.assets, maker, t);
    if let Ok(mr) = r {
        let price = maker.kind()->Limit_price;
        let maker_buys = maker.side() == Side::Buy;
        let buy = if maker_buys { maker } else { t };
        let sell = if maker_buys { t } else { maker };
        let buy2 = if maker_buys { m2 } else { t2 };
        let sell2 = if maker_buys { t2 } else { m2 };
        let p = Amount::integer(price as int);
        let q = decimal_quotient(buy.amount(), p);
        assert(maker.kind() == (OrderKind::Limit { price }));
        assert(trade_sizes(buy, sell, price) == (mr.buyer_base_received, mr.seller_stable_received));
        crate::amount::lemma_pow10_positive((28 - STABLE_ASSET_ID.decimals_spec()) as nat);
        crate::amount::lemma_pow10_positive((28 - sell.asset_id().decimals_spec()) as nat);
        if q.value() <= sell.amount().value() {
            assert(mr.seller_stable_received == decimal_product(q, p));
            assert(buy2.amount().value() <= 0);
            assert(is_filled(buy2));
        } else {
            assert(mr.buyer_base_received == sell.amount());
            assert(sell2.amount().value() <= 0);
            assert(is_filled(sell2));
        }
    }
}

/// One pass of the matching loop, if it matches, leaves its maker or its taker done.
pub open spec fn step_finishes_a_side(s: BookState, t: Order) -> bool {
    (!is_filled(t) && next_maker(s, t) is Some) ==> {
        let (r, m2, t2) = match_outcome(s.assets, s.orders[next_maker(s, t)->0], t);
        r is Ok ==> is_filled(m2) || is_filled(t2)
    }
}

/// Every match of the run, for at most `fuel` passes, leaves its maker or its
/// taker done.
pub open spec fn run_finishes_a_side(s: BookState, t: Order, events: Seq<OrderEvent>, fuel: nat) -> bool
    decreases fuel,
{
    if fuel == 0 {
        true
    } else {
        &&& step_finishes_a_side(s, t)
        &&& match match_step(s, t, events) {
            MatchStep::Continue { state, taker, events } => run_finishes_a_side(state, taker, events, (fuel - 1) as nat),
            _ => true,
        }
    }
}

/// The run ends while the fuel lasts: with one pass more than the book has
/// orders, or with a pass to spare for a taker already done.
proof fn lemma_run_ends(s: BookState, t: Order, events: Seq<OrderEvent>, fuel: nat)
    requires
        book_wf(s),
        fresh_taker(s, t),
        run_finishes_a_side(s, t, events, fuel),
        fuel >= s.orders.len() + 1 || (is_filled(t) && fuel >= 1),
    ensures
        matching(s, t, events, fuel) is Some,
    decreases fuel,
{
    lemma_step_keeps_shape(s, t, events);
    if let MatchStep::Continue { state, taker, events: ev2 } = match_step(s, t, events) {
        let id = next_maker(s, t)->0;
        lemma_next_maker_shape(s, t);
        let maker = s.orders[id];
        let (r, m2, t2) = match_outcome(s.assets, maker, t);
        let (sr, s2) = settlement(s, m2, t2, r->Ok_0);
        lemma_settlement_wf(s, m2, t2, r->Ok_0);
        assert(s.orders.dom().contains(id));
        if is_filled(m2) {
            assert(state.orders == s.orders.remove(id));
            assert(state.orders.len() == s.orders.len() - 1);
        } else {
            assert(state.orders == s.orders.insert(id, m2));
            assert(state.orders.dom() == s.orders.dom());
            assert(s.orders.len() >= 1) by {
                vstd::set_lib::lemma_set_empty_equivalency_len(s.orders.dom());
            }
        }
        lemma_run_ends(state, taker, ev2, (fuel - 1) as nat);
    }
}

/// When every match leaves its maker or its taker done, the matching loop ends
/// within one pass more than the book has resting orders: a done maker leaves
/// the book, and a done taker stops the loop.
pub proof fn law_matching_ends(s: BookState, t: Order, events: Seq<OrderEvent>)
    requires
        book_wf(s),
        fresh_taker(s, t),
        run_finishes_a_side(s, t, events, s.orders.len() + 1),
    ensures
        matching(s, t, events, s.orders.len() + 1) is Some,
{
    lemma_run_ends(s, t, events, s.orders.len() + 1);
}

/// An exact run is one whose every match leaves a side done.
proof fn lemma_exact_run_finishes_sides(s: BookState, t: Order, events: Seq<OrderEvent>, fuel: nat)
    requires
        book_wf(s),
        fresh_taker(s, t),
        run_divides_exactly(s, t, events, fuel),
    ensures
        run_finishes_a_side(s, t, events, fuel),
    decreases fuel,
{
    if fuel > 0 {
        lemma_step_keeps_shape(s, t, events);
        if !is_filled(t) && next_maker(s, t) is Some {
            lemma_exact_match_finishes_a_side(s, t);
        }
        if let MatchStep::Continue { state, taker, events: ev2 } = match_step(s, t, events) {
            lemma_exact_run_finishes_sides(state, taker, ev2, (fuel - 1) as nat);
        }
    }
}

/// Under exact arithmetic the matching loop ends within one pass more than the
/// book has resting orders: each match leaves its maker done, and the maker
/// leaves the book, or leaves the taker done, and the loop stops.
pub proof fn law_exact_matching_ends(s: BookState, t: Order, events: Seq<OrderEvent>)
    requires
        book_wf(s),
        fresh_taker(s, t),
        run_divides_exactly(s, t, events, s.orders.len() + 1),
    ensures
        matching(s, t, events, s.orders.len() + 1) is Some,
{
    lemma_exact_run_finishes_sides(s, t, events, s.orders.len() + 1);
    lemma_run_ends(s, t, events, s.orders.len() + 1);
}

/// A refused order leaves the book as it was and reports why; a refusal made
/// before the debit (stable asset, resting market order, too small an amount,
/// unknown account) asks nothing of the caller.
pub proof fn law_place_order_refusals(
    s: BookState,
    account_id: AccountId,
    asset_id: AssetId,
    side: Side,
    kind: OrderKind,
    amount: Amount,
    tif: Option<Tif>,
)
    ensures
        placement_error(s, account_id, asset_id, side, kind, amount, tif) matches Some(e) ==> placement_outcome(
            s,
            account_id,
            asset_id,
            side,
            kind,
            amount,
            tif,
        ) == (s, Err::<Seq<OrderEvent>, crate::order_book::OrderBookError>(e)),
        (asset_id == STABLE_ASSET_ID || (kind == OrderKind::Market && tif == Some(Tif::GoodUntilCancelled)) || amount.value()
            < collateral_asset_of(side, asset_id).min_amount_value() || !s.accounts.contains_key(account_id))
            ==> placement_computable(s, account_id, asset_id, side, kind, amount, tif),
{
}

/// A best price is the best price of the side: no other price is best.
proof fn lemma_best_price_is(side: Side, levels: Map<Price, Seq<OrderId>>, p: Price)
    requires
        is_best_price(side, levels, p),
    ensures
        best_price_of(side, levels) == Some(p),
{
    let q = choose|q: Price| is_best_price(side, levels, q);
    assert(is_best_price(side, levels, q));
    assert(at_least_as_good(side, p, q) && at_least_as_good(side, q, p));
}

/// Queuing an order at a price makes the best price the better of that price
/// and the best price before (that price alone on an empty side).
pub proof fn law_best_price_after_add(side: Side, levels: Map<Price, Seq<OrderId>>, price: Price, id: OrderId)
    requires
        levels.dom().finite(),
    ensures
        best_price_of(side, levels_after_add(levels, price, id)) == Some(
            match best_price_of(side, levels) {
                None => price,
                Some(b) => if at_least_as_good(side, price, b) {
                    price
                } else {
                    b
                },
            },
        ),
{
    let l2 = levels_after_add(levels, price, id);
    match best_price_of(side, levels) {
        None => {
            if levels.dom().len() > 0 {
                lemma_best_price_exists(side, levels.dom());
                let p = choose|p: Price|
                    levels.dom().contains(p) && forall|q: Price| #[trigger] levels.dom().contains(q) ==> at_least_as_good(side, p, q);
                assert(is_best_price(side, levels, p));
            }
            assert forall|q: Price| #[trigger] l2.contains_key(q) implies at_least_as_good(side, price, q) by {
                if q != price {
                    assert(levels.dom().contains(q));
                    vstd::set_lib::lemma_set_empty_equivalency_len(levels.dom());
                }
            }
            lemma_best_price_is(side, l2, price);
        },
        Some(b) => {
            assert(is_best_price(side, levels, b));
            let c = if at_least_as_good(side, price, b) { price } else { b };
            assert forall|q: Price| #[trigger] l2.contains_key(q) implies at_least_as_good(side, c, q) by {
                if q != price {
                    assert(levels.contains_key(q));
                }
            }
            lemma_best_price_is(side, l2, c);
        },
    }
}

/// Taking an order off a price leaves the best price as it was, unless that takes
/// the last order off the best level.
pub proof fn law_best_price_after_remove(side: Side, levels: Map<Price, Seq<OrderId>>, price: Price, id: OrderId)
    ensures
        best_price_of(side, levels) matches Some(b) ==> (levels_after_remove(levels, price, id).contains_key(b)
            ==> best_price_of(side, levels_after_remove(levels, price, id)) == Some(b)),
{
    let l2 = levels_after_remove(levels, price, id);
    if let Some(b) = best_price_of(side, levels) {
        if l2.contains_key(b) {
            assert(is_best_price(side, levels, b));
            assert forall|q: Price| #[trigger] l2.contains_key(q) implies at_least_as_good(side, b, q) by {
                assert(levels.contains_key(q));
            }
            lemma_best_price_is(side, l2, b);
        }
    }
}

/// The matching loop keeps the events it starts with at the front of those it
/// returns.
proof fn lemma_matching_keeps_events(s: BookState, t: Order, events: Seq<OrderEvent>, fuel: nat)
    requires
        matching(s, t, events, fuel) is Some,
    ensures
        matching(s, t, events, fuel).unwrap().2 matches Ok(e2) ==> e2.len() >= events.len() && forall|i: int|
            0 <= i < events.len() ==> #[trigger] e2[i] == events[i],
    decreases fuel,
{
    if let MatchStep::Continue { state, taker, events: ev2 } = match_step(s, t, events) {
        lemma_matching_keeps_events(state, taker, ev2, (fuel - 1) as nat);
        if let Ok(e2) = matching(s, t, events, fuel).unwrap().2 {
            assert forall|i: int| 0 <= i < events.len() implies #[trigger] e2[i] == events[i] by {
                assert(e2[i] == ev2[i]);
            }
        }
    }
}

/// Two books hold the same: the same orders, queues and assets, the same
/// accounts with the same names and open orders, and balances of the same value.
pub open spec fn holds_the_same(s: BookState, t: BookState) -> bool {
    &&& t.orders == s.orders
    &&& t.buys_side == s.buys_side
    &&& t.buys == s.buys
    &&& t.sells_side == s.sells_side
    &&& t.sells == s.sells
    &&& t.assets == s.assets
    &&& t.accounts.dom() == s.accounts.dom()
    &&& forall|k: AccountId|
        #[trigger] s.accounts.contains_key(k) ==> {
            &&& t.accounts[k].id == s.accounts[k].id
            &&& t.accounts[k].name == s.accounts[k].name
            &&& t.accounts[k].open_orders == s.accounts[k].open_orders
            &&& forall|a: AssetId|
                #[trigger] balance_of(t.accounts[k].balances, a).value() == balance_of(s.accounts[k].balances, a).value()
        }
}

/// Cancelling an order that rested without matching undoes its placement: the
/// book holds what it held before, with only the next id moved on, whenever
/// `rust_decimal` takes the collateral and gives it back exactly.
pub proof fn law_cancel_undoes_unmatched_place(
    s: BookState,
    account_id: AccountId,
    asset_id: AssetId,
    side: Side,
    kind: OrderKind,
    amount: Amount,
    tif: Option<Tif>,
)
    requires
        book_wf(s),
        amount.wf(),
        placement_computable(s, account_id, asset_id, side, kind, amount, tif),
        placement_outcome(s, account_id, asset_id, side, kind, amount, tif).1 == Ok::<
            Seq<OrderEvent>,
            crate::order_book::OrderBookError,
        >(seq![OrderEvent::Added { order_id: s.next_order_id }]),
        s.accounts.contains_key(account_id) ==> ({
            let c = balance_of(s.accounts[account_id].balances, collateral_asset_of(side, asset_id));
            &&& decimal_sum(c, amount.negate()).value() == c.value() - amount.value()
            &&& decimal_sum(decimal_sum(c, amount.negate()), amount).value() == c.value()
        }),
    ensures
        ({
            let placed = placement_outcome(s, account_id, asset_id, side, kind, amount, tif).0;
            let (t, r) = cancellation_outcome(placed, account_id, s.next_order_id);
            &&& r == Ok::<Seq<OrderEvent>, crate::order_book::OrderBookError>(
                seq![OrderEvent::Cancelled { order_id: s.next_order_id }],
            )
            &&& t.next_order_id == s.next_order_id + 1
            &&& holds_the_same(s, t)
        }),
{
    let id = s.next_order_id;
    assert(placement_error(s, account_id, asset_id, side, kind, amount, tif) is None);
    let collateral = collateral_asset_of(side, asset_id);
    let s1 = debited(s, account_id, asset_id, side, amount);
    let order = placed_order(s, account_id, asset_id, side, kind, amount, tif);
    lemma_debited_wf(s, account_id, asset_id, side, amount);
    if s.orders.contains_key(id) {
        assert(resting_wf(s, id));
    }
    assert(fresh_taker(s1, order));
    let fuel = choose|fuel: nat| crate::order_book::matching_computable(s1, order, Seq::empty(), fuel);
    lemma_matching_computable_some(s1, order, Seq::empty(), fuel);
    lemma_matching_keeps_events(s1, order, Seq::empty(), fuel);
    let (s2, t2, res) = matching(s1, order, Seq::empty(), fuel).unwrap();
    assert(res == Ok::<Seq<OrderEvent>, crate::order_book::OrderBookError>(seq![OrderEvent::Added { order_id: id }]));
    // The first pass does not match: a match would put a `Matched` event first.
    match match_step(s1, order, Seq::empty()) {
        MatchStep::Continue { state, taker, events: ev2 } => {
            lemma_matching_keeps_events(state, taker, ev2, (fuel - 1) as nat);
            assert(ev2[0] is Matched);
            assert(res->Ok_0[0] == ev2[0]);
            assert(false);
        },
        MatchStep::Fail { .. } => {
            assert(false);
        },
        MatchStep::Stop { state, taker, events } => {
            assert(state == s1);
            if !is_filled(order) && next_maker(s1, order) is Some {
                let (r0, m0, tk0) = match_outcome(s1.assets, s1.orders[next_maker(s1, order)->0], order);
                assert(tk0 == order);
            }
            assert(taker == order);
            assert(fuel > 0);
            assert(res == finish(s1, order, Seq::empty()).1);
            if is_filled(order) {
                assert(Seq::<OrderEvent>::empty().push(OrderEvent::Filled { order_id: id })[0] is Filled);
                assert(res->Ok_0[0] is Added);
            }
        },
    }
    assert(!is_filled(order));
    assert(order.tif() == Tif::GoodUntilCancelled);
    let price = order.kind()->Limit_price;
    assert(order.kind() == (OrderKind::Limit { price }));
    assert(s2 == with_resting(s1, order));
    // Taking the order out again.
    let rc = resting_copy(order);
    assert(s2.orders[id] == rc);
    let s3 = without_resting(s2, rc);
    let (t, r) = cancellation_outcome(s2, account_id, id);
    assert(s1.orders.insert(id, rc).remove(id) == s1.orders);
    let side_levels = if side == Side::Buy { s1.buys } else { s1.sells };
    assert(side_levels.contains_key(price) ==> !side_levels[price].contains(id)) by {
        if side_levels.contains_key(price) && side_levels[price].contains(id) {
            let j = choose|j: int| 0 <= j < side_levels[price].len() && side_levels[price][j] == id;
            assert(side_levels[price][j] == id);
        }
    }
    law_remove_undoes_add(side_levels, price, id);
    let a1 = s1.accounts[account_id];
    assert(!a1.open_orders.contains(id));
    assert(a1.open_orders.insert(id).remove(id) == a1.open_orders);
    assert(s3.orders == s1.orders);
    assert(s3.buys == s1.buys);
    assert(s3.sells == s1.sells);
    assert(s3.accounts == s1.accounts);
    // The refund.
    let c = balance_of(s.accounts[account_id].balances, collateral);
    let next = decimal_sum(c, amount.negate());
    crate::conservation::lemma_negate_value(amount);
    crate::types::lemma_asset_code_injective(collateral, collateral);
    assert(balance_of(s3.accounts[account_id].balances, collateral) == next);
    crate::amount::lemma_pow10_positive((28 - collateral.decimals_spec()) as nat);
    assert(decimal_sum(next, amount).value() >= 0);
    let s4 = released(s3, rc);
    assert(r is Ok);
    assert(t == unregistered(s4, account_id, id));
    assert(t.accounts.dom() == s.accounts.dom());
    assert forall|k: AccountId| #[trigger] s.accounts.contains_key(k) implies {
        &&& t.accounts[k].id == s.accounts[k].id
        &&& t.accounts[k].name == s.accounts[k].name
        &&& t.accounts[k].open_orders == s.accounts[k].open_orders
        &&& forall|a: AssetId|
            #[trigger] balance_of(t.accounts[k].balances, a).value() == balance_of(s.accounts[k].balances, a).value()
    } by {
        if k == account_id {
            assert(s4.accounts[k].open_orders == s.accounts[k].open_orders);
            assert forall|a: AssetId|
                #[trigger] balance_of(t.accounts[k].balances, a).value() == balance_of(s.accounts[k].balances, a).value() by {
                crate::types::lemma_asset_code_injective(a, collateral);
            }
        }
    }
}

/// The order at this place of the queue is known and trades the asset.
pub open spec fn trades_asset_at(ids: Seq<OrderId>, orders: Map<OrderId, Order>, asset: AssetId, i: int) -> bool {
    orders.contains_key(ids[i]) && orders[ids[i]].asset_id() == asset
}

/// Time priority within a queue: what is found is the earliest queued known order
/// of the asset, and nothing is found only when the queue holds none.
pub proof fn law_first_for_asset_is_earliest(ids: Seq<OrderId>, orders: Map<OrderId, Order>, asset: AssetId)
    ensures
        first_for_asset(ids, orders, asset) matches Some(id) ==> exists|j: int|
            0 <= j < ids.len() && ids[j] == id && trades_asset_at(ids, orders, asset, j) && forall|i: int|
                0 <= i < j ==> !trades_asset_at(ids, orders, asset, i),
        first_for_asset(ids, orders, asset) is None <==> forall|i: int|
            0 <= i < ids.len() ==> !trades_asset_at(ids, orders, asset, i),
    decreases ids.len(),
{
    if ids.len() > 0 {
        let rest = ids.drop_first();
        law_first_for_asset_is_earliest(rest, orders, asset);
        assert forall|i: int| 0 <= i < rest.len() implies rest[i] == ids[i + 1] by {}
        if trades_asset_at(ids, orders, asset, 0) {
            assert(first_for_asset(ids, orders, asset) == Some(ids[0]));
        } else {
            assert(first_for_asset(ids, orders, asset) == first_for_asset(rest, orders, asset));
            if let Some(id) = first_for_asset(rest, orders, asset) {
                let j = choose|j: int|
                    0 <= j < rest.len() && rest[j] == id && trades_asset_at(rest, orders, asset, j) && forall|i: int|
                        0 <= i < j ==> !trades_asset_at(rest, orders, asset, i);
                assert(ids[j + 1] == id && trades_asset_at(ids, orders, asset, j + 1));
                assert forall|i: int| 0 <= i < j + 1 implies !trades_asset_at(ids, orders, asset, i) by {
                    if i > 0 {
                        assert(!trades_asset_at(rest, orders, asset, i - 1));
                    }
                }
            } else {
                assert forall|i: int| 0 <= i < ids.len() implies !trades_asset_at(ids, orders, asset, i) by {
                    if i > 0 {
                        assert(!trades_asset_at(rest, orders, asset, i - 1));
                    }
                }
            }
            if forall|i: int| 0 <= i < ids.len() ==> !trades_asset_at(ids, orders, asset, i) {
                assert forall|i: int| 0 <= i < rest.len() implies !trades_asset_at(rest, orders, asset, i) by {
                    assert(!trades_asset_at(ids, orders, asset, i + 1));
                }
            }
        }
    }
}

/// Price-time priority: in a well-formed book a taker meets the order queued
/// first at the best price of the other side.
pub proof fn law_taker_meets_first_order_at_best_price(s: BookState, t: Order)
    requires
        book_wf(s),
        t.asset_id() != STABLE_ASSET_ID,
    ensures
        next_maker(s, t) matches Some(id) ==> {
            let (side, levels) = match t.side() {
                Side::Buy => (Side::Sell, s.sells),
                Side::Sell => (Side::Buy, s.buys),
            };
            let p = s.orders[id].kind()->Limit_price;
            &&& levels.contains_key(p)
            &&& levels[p][0] == id
            &&& forall|q: Price| #[trigger] levels.contains_key(q) ==> at_least_as_good(side, p, q)
        },
{
    lemma_next_maker_shape(s, t);
    if let Some(id) = next_maker(s, t) {
        let (side, levels) = match t.side() {
            Side::Buy => (s.sells_side, s.sells),
            Side::Sell => (s.buys_side, s.buys),
        };
        let asset = t.asset_id();
        let p0 = choose|p: Price| is_best_level(side, levels, s.orders, asset, p);
        assert(is_best_level(side, levels, s.orders, asset, p0));
        let q = levels[p0];
        assert(first_for_asset(q, s.orders, asset) == Some(id));
        law_first_for_asset_is_earliest(q, s.orders, asset);
        let j = choose|j: int|
            0 <= j < q.len() && q[j] == id && trades_asset_at(q, s.orders, asset, j) && forall|i: int|
                0 <= i < j ==> !trades_asset_at(q, s.orders, asset, i);
        assert(q[j] == id);
        assert(s.orders[id].kind() == (OrderKind::Limit { price: p0 }));
        assert(resting_wf(s, q[0]));
        lemma_single_tradable_asset(s.orders[q[0]].asset_id(), asset);
        assert(trades_asset_at(q, s.orders, asset, 0));
        assert(j == 0);
    }
}

/// One minimum lot, in units of `10^-28`: `10^-6` USDC, `10^-8` BTC.
pub proof fn law_minimum_lots()
    ensures
        AssetId::Usdc.min_amount_value() == 10_000_000_000_000_000_000_000,
        AssetId::Btc.min_amount_value() == 100_000_000_000_000_000_000,
{
    reveal_with_fuel(crate::amount::pow10, 23);
}

/// An order counts as done exactly when its working amount is at most one
/// minimum lot of its unit: `10^-6` USDC for a buy, one lot of its asset for a
/// sell (`10^-8` BTC).
pub proof fn law_done_means_at_most_one_lot(o: Order)
    ensures
        is_filled(o) <==> o.amount().value() <= (if o.side() == Side::Buy || o.asset_id() == AssetId::Usdc {
            10_000_000_000_000_000_000_000int
        } else {
            100_000_000_000_000_000_000int
        }),
{
    law_minimum_lots();
}

/// `place_order` refuses exactly these orders, checked in this order: one of the
/// stable asset; a market order asked to rest; one below a single minimum lot of
/// its collateral (`10^-6` USDC for a buy, `10^-8` BTC for a sell); one of an
/// unknown account; one whose debit would leave the balance below zero. Every
/// other order is accepted.
pub proof fn law_placement_refusals_exact(
    s: BookState,
    account_id: AccountId,
    asset_id: AssetId,
    side: Side,
    kind: OrderKind,
    amount: Amount,
    tif: Option<Tif>,
)
    ensures
        ({
            let e = placement_error(s, account_id, asset_id, side, kind, amount, tif);
            let tradable = asset_id != AssetId::Usdc;
            let may_rest = !(kind == OrderKind::Market && tif == Some(Tif::GoodUntilCancelled));
            let lot = if side == Side::Buy {
                10_000_000_000_000_000_000_000int
            } else {
                100_000_000_000_000_000_000int
            };
            let big_enough = amount.value() >= lot;
            let known = s.accounts.contains_key(account_id);
            let covered = known && decimal_sum(
                balance_of(s.accounts[account_id].balances, collateral_asset_of(side, asset_id)),
                amount.negate(),
            ).value() >= 0;
            &&& e == Some(crate::order_book::OrderBookError::InvalidAsset) <==> !tradable
            &&& e == Some(crate::order_book::OrderBookError::MarketOrderCannotRest) <==> tradable && !may_rest
            &&& e == Some(crate::order_book::OrderBookError::OrderAmountTooSmall) <==> tradable && may_rest && !big_enough
            &&& e == Some(crate::order_book::OrderBookError::AccountNotFound) <==> tradable && may_rest && big_enough && !known
            &&& e == Some(crate::order_book::OrderBookError::Account(crate::account::AccountError::InsufficientBalance))
                <==> tradable && may_rest && big_enough && known && !covered
            &&& e is None <==> tradable && may_rest && big_enough && covered
        }),
{
    law_minimum_lots();
}

/// The working amounts of the listed orders of the asset with this code.
pub open spec fn order_amounts_of(orders: Seq<Order>, code: u64) -> int
    decreases orders.len(),
{
    if orders.len() == 0 {
        0
    } else {
        order_amounts_of(orders.drop_last(), code) + if orders.last().asset_id().code() == code {
            orders.last().amount().value()
        } else {
            0
        }
    }
}

/// The value of the entry for this code; zero where there is none.
pub open spec fn entry_value(m: Map<u64, Amount>, code: u64) -> int {
    if m.contains_key(code) {
        m[code].value()
    } else {
        0
    }
}

/// `rust_decimal` adds the order's amount to the running total of its asset, if
/// there is one, without rounding.
pub open spec fn adds_exactly(prev: Map<u64, Amount>, o: Order) -> bool {
    let k = o.asset_id().code();
    prev.contains_key(k) ==> decimal_sum(prev[k], o.amount()).value() == prev[k].value() + o.amount().value()
}

/// `rust_decimal` adds each order's amount to its running total without rounding.
pub open spec fn totals_add_exactly(totals: Map<u64, Amount>, orders: Seq<Order>) -> bool {
    forall|i: int|
        #![trigger orders[i]]
        0 <= i < orders.len() ==> adds_exactly(totals_with_orders(totals, orders.take(i)), orders[i])
}

/// Some listed order trades the asset with this code.
pub open spec fn lists_asset(orders: Seq<Order>, code: u64) -> bool {
    exists|i: int| 0 <= i < orders.len() && #[trigger] orders[i].asset_id().code() == code
}

/// The account summary has a total for every asset with a free balance or a
/// listed order, and no other; when `rust_decimal` adds exactly, each total is
/// the free balance (zero where none is set) plus the working amounts of the
/// listed orders of that asset.
pub proof fn law_summary_totals(totals: Map<u64, Amount>, orders: Seq<Order>)
    ensures
        forall|k: u64|
            #[trigger] totals_with_orders(totals, orders).contains_key(k) <==> (totals.contains_key(k) || lists_asset(
                orders,
                k,
            )),
        totals_add_exactly(totals, orders) ==> forall|k: u64|
            #[trigger] entry_value(totals_with_orders(totals, orders), k) == entry_value(totals, k) + order_amounts_of(
                orders,
                k,
            ),
    decreases orders.len(),
{
    if orders.len() > 0 {
        let rest = orders.drop_last();
        let n = orders.len() - 1;
        let o = orders.last();
        let k0 = o.asset_id().code();
        let prev = totals_with_orders(totals, rest);
        law_summary_totals(totals, rest);
        assert(orders.take(n as int) == rest);
        assert(orders[n] == o);
        assert forall|k: u64| #[trigger] totals_with_orders(totals, orders).contains_key(k) <==> (totals.contains_key(k)
            || lists_asset(orders, k)) by {
            if k == k0 {
                assert(orders[n].asset_id().code() == k);
            } else {
                if lists_asset(orders, k) {
                    let i = choose|i: int| 0 <= i < orders.len() && #[trigger] orders[i].asset_id().code() == k;
                    assert(rest[i] == orders[i]);
                }
                if lists_asset(rest, k) {
                    let i = choose|i: int| 0 <= i < rest.len() && #[trigger] rest[i].asset_id().code() == k;
                    assert(orders[i] == rest[i]);
                }
            }
        }
        if totals_add_exactly(totals, orders) {
            assert forall|i: int| #![trigger rest[i]] 0 <= i < rest.len() implies adds_exactly(
                totals_with_orders(totals, rest.take(i)),
                rest[i],
            ) by {
                assert(rest.take(i) == orders.take(i));
                assert(rest[i] == orders[i]);
            }
            assert(adds_exactly(prev, o)) by {
                assert(adds_exactly(totals_with_orders(totals, orders.take(n as int)), orders[n]));
            }
            assert forall|k: u64| #[trigger] entry_value(totals_with_orders(totals, orders), k) == entry_value(totals, k)
                + order_amounts_of(orders, k) by {
                assert(entry_value(prev, k) == entry_value(totals, k) + order_amounts_of(rest, k));
            }
        }
    }
}

} // verus!
