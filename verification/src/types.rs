//! Orders, assets, accounts and the two sides of the book.
use crate::amount::{decimal_difference, decimal_lt, decimal_new, decimal_sub, pow10, within_range};
pub use crate::account::{Account, AccountError, AccountInfo, Asset, Vanity};
pub use crate::amount::Amount;
use std::collections::{BTreeMap, HashMap};
use vstd::prelude::*;
use vstd::std_specs::btree::spec_keys_iter;
use vstd::std_specs::iter::IteratorSpec;

verus! {

/// The asset in which buy orders are paid and collateralised.
pub const STABLE_ASSET_ID: AssetId = AssetId::Usdc;

pub const USDC_DECIMALS: u8 = 6;

pub const BTC_DECIMALS: u8 = 8;

pub type OrderId = u64;

pub type Price = u64;

pub type Quantity = u64;

pub type AccountId = u64;

#[derive(Debug, Clone, Copy, PartialEq, Eq, Structural)]
pub enum Side {
    Buy,
    Sell,
}

#[derive(Debug, Clone, Copy, PartialEq, Eq, Structural)]
pub enum OrderKind {
    Limit { price: Price },
    Market,
}

#[derive(Debug, Clone, Copy, PartialEq, Eq, Structural)]
pub enum OrderBookError {
    MarketOrderCannotRest,
    OrderWouldMatch,
}

#[derive(Debug, Clone, Copy, PartialEq, Eq, Hash, Structural)]
pub enum AssetId {
    Usdc,
    Btc,
}

impl AssetId {
    /// The number under which the asset is keyed in balances and asset sets.
    pub open spec fn code(self) -> u64 {
        match self {
            AssetId::Usdc => 0,
            AssetId::Btc => 1,
        }
    }

    pub open spec fn decimals_spec(&self) -> u8 {
        match self {
            AssetId::Usdc => USDC_DECIMALS,
            AssetId::Btc => BTC_DECIMALS,
        }
    }

    /// The smallest amount of the asset, `10^-decimals`, in units of `10^-28`.
    pub open spec fn min_amount_value(self) -> int {
        pow10((28 - self.decimals_spec()) as nat)
    }

    pub fn as_str(&self) -> (r: &'static str)
        ensures
            r@ == (match *self {
                AssetId::Usdc => "usdc"@,
                AssetId::Btc => "btc"@,
            }),
    {
        match self {
            AssetId::Usdc => "usdc",
            AssetId::Btc => "btc",
        }
    }

    #[verifier::when_used_as_spec(decimals_spec)]
    pub fn decimals(&self) -> (r: u8)
        ensures
            r == self.decimals_spec(),
    {
        match self {
            AssetId::Usdc => USDC_DECIMALS,
            AssetId::Btc => BTC_DECIMALS,
        }
    }

    /// One unit in the last decimal place of the asset.
    pub fn min_amount(&self) -> (r: Amount)
        ensures
            r.value() == self.min_amount_value(),
            r.decimals() == self.decimals_spec(),
    {
        let d = self.decimals();
        let r = decimal_new(1, d as u32);
        assert(r.value() == pow10((28 - d) as nat));
        r
    }

    /// The asset with the given code, if there is one.
    pub open spec fn from_code(code: u64) -> Option<AssetId> {
        if code == 0 {
            Some(AssetId::Usdc)
        } else if code == 1 {
            Some(AssetId::Btc)
        } else {
            None
        }
    }
}

pub proof fn lemma_asset_code_injective(a: AssetId, b: AssetId)
    ensures
        a.code() == b.code() <==> a == b,
        AssetId::from_code(a.code()) == Some(a),
{
}

impl From<AssetId> for u64 {
    fn from(asset: AssetId) -> (r: u64) {
        match asset {
            AssetId::Usdc => 0,
            AssetId::Btc => 1,
        }
    }
}

impl vstd::std_specs::convert::FromSpecImpl<AssetId> for u64 {
    open spec fn obeys_from_spec() -> bool {
        true
    }

    open spec fn from_spec(asset: AssetId) -> u64 {
        asset.code()
    }
}

#[derive(Debug, Clone, Copy, PartialEq, Eq, Structural)]
pub enum Tif {
    GoodUntilCancelled,
    ImmediateOrCancel,
}

impl Default for Tif {
    fn default() -> (r: Tif)
        ensures
            r == Tif::GoodUntilCancelled,
    {
        Tif::GoodUntilCancelled
    }
}


/// An order as the book holds it. Its `amount` is the working size: the stable
/// budget still to spend for a buy, the base quantity still to sell for a sell.
#[derive(Debug, Clone, Copy, PartialEq, Eq)]
pub struct Order {
    pub(crate) id: OrderId,
    pub(crate) account_id: AccountId,
    pub(crate) asset_id: AssetId,
    pub(crate) side: Side,
    pub(crate) kind: OrderKind,
    pub(crate) amount: Amount,
    pub(crate) tif: Tif,
}

/// The working amount after `reduce_amount_saturating(by)`: unchanged when `by`
/// is not positive, else the larger of the `rust_decimal` difference and zero, as
/// `Decimal::max` picks it: the difference itself unless it is below zero.
pub open spec fn reduced_amount(amount: Amount, by: Amount) -> Amount {
    if by.value() <= 0 {
        amount
    } else {
        let d = decimal_difference(amount, by);
        if d.value() < 0 {
            Amount::integer(0)
        } else {
            d
        }
    }
}

impl Order {
    pub open(crate) spec fn id_spec(&self) -> OrderId {
        self.id
    }

    pub open(crate) spec fn account_id_spec(&self) -> AccountId {
        self.account_id
    }

    pub open(crate) spec fn asset_id_spec(&self) -> AssetId {
        self.asset_id
    }

    pub open(crate) spec fn side_spec(&self) -> Side {
        self.side
    }

    pub open(crate) spec fn kind_spec(&self) -> OrderKind {
        self.kind
    }

    pub open(crate) spec fn amount_spec(&self) -> Amount {
        self.amount
    }

    pub open(crate) spec fn tif_spec(&self) -> Tif {
        self.tif
    }

    /// The order that `new` builds from these fields.
    pub open(crate) spec fn new_spec(
        id: OrderId,
        account_id: AccountId,
        asset_id: AssetId,
        side: Side,
        kind: OrderKind,
        amount: Amount,
        tif: Tif,
    ) -> Order {
        Order { id, account_id, asset_id, side, kind, amount, tif }
    }

    /// The same order with another working amount.
    pub open(crate) spec fn with_amount(self, amount: Amount) -> Order {
        Order { amount, ..self }
    }

    pub fn new(
        id: OrderId,
        account_id: AccountId,
        asset_id: AssetId,
        side: Side,
        kind: OrderKind,
        amount: Amount,
        tif: Tif,
    ) -> (r: Self)
        ensures
            r.id() == id,
            r.account_id() == account_id,
            r.asset_id() == asset_id,
            r.side() == side,
            r.kind() == kind,
            r.amount() == amount,
            r.tif() == tif,
            r == Order::new_spec(id, account_id, asset_id, side, kind, amount, tif),
    {
        Order { id, account_id, asset_id, side, kind, amount, tif }
    }

    #[verifier::when_used_as_spec(id_spec)]
    pub fn id(&self) -> (r: OrderId)
        ensures
            r == self.id_spec(),
    {
        self.id
    }

    #[verifier::when_used_as_spec(account_id_spec)]
    pub fn account_id(&self) -> (r: AccountId)
        ensures
            r == self.account_id_spec(),
    {
        self.account_id
    }

    #[verifier::when_used_as_spec(asset_id_spec)]
    pub fn asset_id(&self) -> (r: AssetId)
        ensures
            r == self.asset_id_spec(),
    {
        self.asset_id
    }

    #[verifier::when_used_as_spec(side_spec)]
    pub fn side(&self) -> (r: Side)
        ensures
            r == self.side_spec(),
    {
        self.side
    }

    #[verifier::when_used_as_spec(kind_spec)]
    pub fn kind(&self) -> (r: OrderKind)
        ensures
            r == self.kind_spec(),
    {
        self.kind
    }

    #[verifier::when_used_as_spec(amount_spec)]
    pub fn amount(&self) -> (r: Amount)
        ensures
            r == self.amount_spec(),
    {
        self.amount
    }

    /// Decreases the working size (buy: stable budget; sell: base quantity),
    /// floored at zero. A `by` that is not positive leaves the order unchanged.
    pub fn reduce_amount_saturating(&mut self, by: Amount)
        requires
            by.value() > 0 ==> within_range(old(self).amount().value() - by.value()),
        ensures
            *final(self) == old(self).with_amount(reduced_amount(old(self).amount(), by)),
    {
        let zero = Amount::zero();
        if decimal_lt(zero, by) {
            let d = decimal_sub(self.amount, by);
            if decimal_lt(d, zero) {
                self.amount = zero;
            } else {
                self.amount = d;
            }
        }
    }

    #[verifier::when_used_as_spec(tif_spec)]
    pub fn tif(&self) -> (r: Tif)
        ensures
            r == self.tif_spec(),
    {
        self.tif
    }
}


/// The first id in `ids` whose order is known and trades `asset`.
pub open spec fn first_for_asset(ids: Seq<OrderId>, orders: Map<OrderId, Order>, asset: AssetId) -> Option<OrderId>
    decreases ids.len(),
{
    if ids.len() == 0 {
        None
    } else if orders.contains_key(ids[0]) && orders[ids[0]].asset_id() == asset {
        Some(ids[0])
    } else {
        first_for_asset(ids.drop_first(), orders, asset)
    }
}

/// The queue without any occurrence of `order_id`, the rest in order.
pub open spec fn without(ids: Seq<OrderId>, order_id: OrderId) -> Seq<OrderId> {
    ids.filter(|x: OrderId| x != order_id)
}

/// The ids resting at one price, oldest first.
#[derive(Debug)]
pub struct OrderBucket {
    order_ids: Vec<OrderId>,
}

impl View for OrderBucket {
    type V = Seq<OrderId>;

    closed spec fn view(&self) -> Seq<OrderId> {
        self.order_ids@
    }
}

impl Clone for OrderBucket {
    fn clone(&self) -> (r: OrderBucket)
        ensures
            r@ == self@,
    {
        let order_ids = self.order_ids.clone();
        assert(order_ids@ == self.order_ids@);
        OrderBucket { order_ids }
    }
}

impl Default for OrderBucket {
    fn default() -> (r: OrderBucket)
        ensures
            r@ == Seq::<OrderId>::empty(),
    {
        OrderBucket { order_ids: Vec::new() }
    }
}

impl OrderBucket {
    fn push(&mut self, order_id: OrderId)
        ensures
            final(self)@ == old(self)@.push(order_id),
    {
        self.order_ids.push(order_id);
    }

    fn first_order_id_for_asset(&self, orders: &HashMap<OrderId, Order>, asset_id: AssetId) -> (r:
        Option<OrderId>)
        ensures
            r == first_for_asset(self@, orders@, asset_id),
    {
        let n = self.order_ids.len();
        let mut i: usize = 0;
        assert(self@.skip(0) == self@);
        while i < n
            invariant
                n == self.order_ids@.len(),
                i <= n,
                first_for_asset(self@, orders@, asset_id) == first_for_asset(
                    self@.skip(i as int),
                    orders@,
                    asset_id,
                ),
            decreases n - i,
        {
            let order_id = self.order_ids[i];
            assert(self@.skip(i as int)[0] == order_id);
            assert(self@.skip(i as int).drop_first() == self@.skip(i + 1));
            match orders.get(&order_id) {
                Some(order) => {
                    if order.asset_id() == asset_id {
                        return Some(order_id);
                    }
                },
                None => {},
            }
            i = i + 1;
        }
        assert(self@.skip(i as int).len() == 0);
        None
    }

    fn remove(&mut self, order_id: OrderId)
        ensures
            final(self)@ == without(old(self)@, order_id),
    {
        let mut kept: Vec<OrderId> = Vec::new();
        let n = self.order_ids.len();
        let mut i: usize = 0;
        proof {
            reveal_with_fuel(Seq::<_>::filter, 1);
            assert(without(self.order_ids@.take(0), order_id) == Seq::<OrderId>::empty());
        }
        while i < n
            invariant
                n == self.order_ids@.len(),
                i <= n,
                kept@ == without(self.order_ids@.take(i as int), order_id),
            decreases n - i,
        {
            let x = self.order_ids[i];
            proof {
                let s = self.order_ids@;
                assert(s.take(i + 1).drop_last() == s.take(i as int));
                assert(s.take(i + 1).last() == x);
                reveal_with_fuel(Seq::<_>::filter, 1);
                assert(without(s.take(i + 1), order_id) == if x != order_id {
                    without(s.take(i as int), order_id).push(x)
                } else {
                    without(s.take(i as int), order_id)
                });
            }
            if x != order_id {
                kept.push(x);
            }
            i = i + 1;
        }
        assert(self.order_ids@.take(n as int) == self.order_ids@);
        self.order_ids = kept;
    }

    fn is_empty(&self) -> (r: bool)
        ensures
            r == (self@.len() == 0),
    {
        self.order_ids.len() == 0
    }
}


/// What `first_for_asset` finds is a known order of the asset.
pub proof fn lemma_first_for_asset_known(ids: Seq<OrderId>, orders: Map<OrderId, Order>, asset: AssetId)
    ensures
        first_for_asset(ids, orders, asset) matches Some(id) ==> orders.contains_key(id) && orders[id].asset_id() == asset,
    decreases ids.len(),
{
    if ids.len() > 0 {
        lemma_first_for_asset_known(ids.drop_first(), orders, asset);
    }
}

/// `p` is at least as good a price as `q` for the side: the highest bid, the lowest ask.
pub open spec fn at_least_as_good(side: Side, p: Price, q: Price) -> bool {
    match side {
        Side::Buy => p >= q,
        Side::Sell => p <= q,
    }
}

/// Some order at price `p` trades `asset`.
pub open spec fn has_candidate(
    levels: Map<Price, Seq<OrderId>>,
    orders: Map<OrderId, Order>,
    asset: AssetId,
    p: Price,
) -> bool {
    levels.contains_key(p) && first_for_asset(levels[p], orders, asset) is Some
}

/// `p` is the best price at which some order trades `asset`.
pub open spec fn is_best_level(
    side: Side,
    levels: Map<Price, Seq<OrderId>>,
    orders: Map<OrderId, Order>,
    asset: AssetId,
    p: Price,
) -> bool {
    &&& has_candidate(levels, orders, asset, p)
    &&& forall|q: Price| #[trigger] has_candidate(levels, orders, asset, q) ==> at_least_as_good(side, p, q)
}

/// Price-time priority: the oldest order trading `asset` at the best price that has one.
pub open spec fn best_for_asset(
    side: Side,
    levels: Map<Price, Seq<OrderId>>,
    orders: Map<OrderId, Order>,
    asset: AssetId,
) -> Option<OrderId> {
    if exists|p: Price| is_best_level(side, levels, orders, asset, p) {
        let p = choose|p: Price| is_best_level(side, levels, orders, asset, p);
        first_for_asset(levels[p], orders, asset)
    } else {
        None
    }
}

/// What `best_for_asset` finds is a known order of the asset.
pub proof fn lemma_best_for_asset_known(
    side: Side,
    levels: Map<Price, Seq<OrderId>>,
    orders: Map<OrderId, Order>,
    asset: AssetId,
)
    ensures
        best_for_asset(side, levels, orders, asset) matches Some(id) ==> orders.contains_key(id) && orders[id].asset_id() == asset,
{
    if exists|p: Price| is_best_level(side, levels, orders, asset, p) {
        let p = choose|p: Price| is_best_level(side, levels, orders, asset, p);
        lemma_first_for_asset_known(levels[p], orders, asset);
    }
}

/// `p` is a price level and no level is better.
pub open spec fn is_best_price(side: Side, levels: Map<Price, Seq<OrderId>>, p: Price) -> bool {
    &&& levels.contains_key(p)
    &&& forall|q: Price| #[trigger] levels.contains_key(q) ==> at_least_as_good(side, p, q)
}

/// The best price level of the side, if it has any.
pub open spec fn best_price_of(side: Side, levels: Map<Price, Seq<OrderId>>) -> Option<Price> {
    if exists|p: Price| is_best_price(side, levels, p) {
        Some(choose|p: Price| is_best_price(side, levels, p))
    } else {
        None
    }
}

/// The levels after `order_id` joins the back of the queue at `price`.
pub open spec fn levels_after_add(levels: Map<Price, Seq<OrderId>>, price: Price, order_id: OrderId) -> Map<
    Price,
    Seq<OrderId>,
> {
    let queue = if levels.contains_key(price) {
        levels[price]
    } else {
        Seq::empty()
    };
    levels.insert(price, queue.push(order_id))
}

/// The levels after `order_id` leaves the queue at `price`; a queue left empty is dropped.
pub open spec fn levels_after_remove(levels: Map<Price, Seq<OrderId>>, price: Price, order_id: OrderId) -> Map<
    Price,
    Seq<OrderId>,
> {
    if levels.contains_key(price) {
        let queue = without(levels[price], order_id);
        if queue.len() == 0 {
            levels.remove(price)
        } else {
            levels.insert(price, queue)
        }
    } else {
        levels
    }
}

/// One side of the book: queues of order ids by price.
#[derive(Debug)]
pub struct OrderBookSide {
    side: Side,
    price_levels: BTreeMap<Price, OrderBucket>,
}

impl OrderBookSide {
    pub closed spec fn side_spec(&self) -> Side {
        self.side
    }

    /// The queue of order ids at each price.
    pub closed spec fn levels(&self) -> Map<Price, Seq<OrderId>> {
        self.price_levels@.map_values(|b: OrderBucket| b@)
    }

    pub(crate) fn new(side: Side) -> (r: Self)
        ensures
            r.side_spec() == side,
            r.levels() == Map::<Price, Seq<OrderId>>::empty(),
    {
        let r = OrderBookSide { side, price_levels: BTreeMap::new() };
        assert(r.levels() == Map::<Price, Seq<OrderId>>::empty());
        r
    }

    /// A copy of the side.
    pub(crate) fn copy(&self) -> (r: Self)
        ensures
            r.side_spec() == self.side_spec(),
            r.levels() == self.levels(),
    {
        OrderBookSide { side: self.side, price_levels: self.price_levels.clone() }
    }

    pub(crate) fn add_limit_order(&mut self, price: Price, order_id: OrderId)
        ensures
            final(self).side_spec() == old(self).side_spec(),
            final(self).levels() == levels_after_add(old(self).levels(), price, order_id),
    {
        let mut bucket = match self.price_levels.remove(&price) {
            Some(b) => b,
            None => OrderBucket::default(),
        };
        bucket.push(order_id);
        self.price_levels.insert(price, bucket);
        assert(self.levels() == levels_after_add(old(self).levels(), price, order_id));
    }

    pub(crate) fn remove_limit_order(&mut self, price: Price, order_id: OrderId)
        ensures
            final(self).side_spec() == old(self).side_spec(),
            final(self).levels() == levels_after_remove(old(self).levels(), price, order_id),
    {
        match self.price_levels.remove(&price) {
            Some(b) => {
                let mut bucket = b;
                bucket.remove(order_id);
                if !bucket.is_empty() {
                    self.price_levels.insert(price, bucket);
                }
            },
            None => {},
        }
        assert(self.levels() == levels_after_remove(old(self).levels(), price, order_id));
    }

    /// The prices of all levels.
    fn prices(&self) -> (r: Vec<Price>)
        ensures
            r@.to_set() == self.levels().dom(),
    {
        let ghost ks = spec_keys_iter(&self.price_levels).remaining().map_values(|x: &Price| *x);
        let mut r: Vec<Price> = Vec::new();
        for k in it: self.price_levels.keys()
            invariant
                it.seq() == spec_keys_iter(&self.price_levels).remaining(),
                ks == spec_keys_iter(&self.price_levels).remaining().map_values(|x: &Price| *x),
                r@ == ks.take(it.index() as int),
        {
            r.push(*k);
            assert(ks.take(it.index() + 1) == ks.take(it.index() as int).push(*k));
        }
        proof {
            let rem = spec_keys_iter(&self.price_levels).remaining();
            vstd::std_specs::btree::axiom_spec_keys_iter(&self.price_levels);
            assert(r@ == ks);
            assert(rem.unref() == ks);
            assert(r@.to_set() == self.levels().dom());
        }
        r
    }

    /// The id of the order that a taker of `asset_id` meets first: price priority,
    /// then time priority within the price.
    pub(crate) fn best_order_id_for_asset(&self, orders: &HashMap<OrderId, Order>, asset_id: AssetId) -> (r:
        Option<OrderId>)
        ensures
            r == best_for_asset(self.side_spec(), self.levels(), orders@, asset_id),
    {
        let prices = self.prices();
        let ghost levels = self.levels();
        let ghost side = self.side;
        let mut best: Option<(Price, OrderId)> = None;
        let n = prices.len();
        let mut i: usize = 0;
        while i < n
            invariant
                n == prices@.len(),
                i <= n,
                prices@.to_set() == levels.dom(),
                levels == self.levels(),
                side == self.side,
                match best {
                    None => forall|j: int| 0 <= j < i ==> !has_candidate(levels, orders@, asset_id, #[trigger] prices@[j]),
                    Some((p, id)) => {
                        &&& has_candidate(levels, orders@, asset_id, p)
                        &&& first_for_asset(levels[p], orders@, asset_id) == Some(id)
                        &&& forall|j: int| 0 <= j < i && has_candidate(levels, orders@, asset_id, #[trigger] prices@[j])
                            ==> at_least_as_good(side, p, prices@[j])
                    },
                },
            decreases n - i,
        {
            let p = prices[i];
            assert(prices@.to_set().contains(p));
            let bucket = self.price_levels.get(&p).unwrap();
            assert(levels[p] == bucket@);
            match bucket.first_order_id_for_asset(orders, asset_id) {
                Some(id) => {
                    let better = match best {
                        None => true,
                        Some((q, _)) => match self.side {
                            Side::Buy => p > q,
                            Side::Sell => p < q,
                        },
                    };
                    if better {
                        best = Some((p, id));
                    }
                },
                None => {},
            }
            i = i + 1;
        }
        proof {
            assert forall|q: Price| #[trigger] has_candidate(levels, orders@, asset_id, q) implies exists|j: int|
                0 <= j < n && prices@[j] == q by {
                assert(prices@.to_set().contains(q));
            }
        }
        match best {
            None => {
                assert(!exists|p: Price| is_best_level(side, levels, orders@, asset_id, p));
                None
            },
            Some((p, id)) => {
                assert(is_best_level(side, levels, orders@, asset_id, p));
                let ghost c = choose|c: Price| is_best_level(side, levels, orders@, asset_id, c);
                assert(at_least_as_good(side, p, c) && at_least_as_good(side, c, p));
                Some(id)
            },
        }
    }

    /// The best price of the side: the highest bid or the lowest ask.
    pub fn best_price(&self) -> (r: Option<Price>)
        ensures
            r == best_price_of(self.side_spec(), self.levels()),
    {
        let prices = self.prices();
        let ghost levels = self.levels();
        let ghost side = self.side;
        let mut best: Option<Price> = None;
        let n = prices.len();
        let mut i: usize = 0;
        while i < n
            invariant
                n == prices@.len(),
                i <= n,
                prices@.to_set() == levels.dom(),
                levels == self.levels(),
                side == self.side,
                match best {
                    None => i == 0,
                    Some(p) => {
                        &&& levels.contains_key(p)
                        &&& forall|j: int| 0 <= j < i ==> at_least_as_good(side, p, #[trigger] prices@[j])
                    },
                },
            decreases n - i,
        {
            let p = prices[i];
            assert(prices@.to_set().contains(p));
            let better = match best {
                None => true,
                Some(q) => match self.side {
                    Side::Buy => p > q,
                    Side::Sell => p < q,
                },
            };
            if better {
                best = Some(p);
            }
            i = i + 1;
        }
        proof {
            assert forall|q: Price| #[trigger] levels.contains_key(q) implies exists|j: int|
                0 <= j < n && prices@[j] == q by {
                assert(prices@.to_set().contains(q));
            }
        }
        match best {
            None => {
                assert(levels.dom().len() == 0) by {
                    if levels.dom().len() > 0 {
                        let q = levels.dom().choose();
                        assert(levels.contains_key(q));
                    }
                }
                assert(!exists|p: Price| is_best_price(side, levels, p));
                None
            },
            Some(p) => {
                assert(is_best_price(side, levels, p));
                let ghost c = choose|c: Price| is_best_price(side, levels, c);
                assert(at_least_as_good(side, p, c) && at_least_as_good(side, c, p));
                Some(p)
            },
        }
    }
}

} // verus!
