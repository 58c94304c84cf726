//! Display names, assets and trader accounts.
use crate::amount::{
    decimal_add, decimal_difference, decimal_lt, decimal_neg, decimal_sub, decimal_sum, fits_at_scale, max_scale_of, within_range,
    Amount,
};
use crate::types::{AccountId, AssetId, Order, OrderId};
use std::collections::{HashMap, HashSet};
use std::string::FromUtf8Error;
use vstd::prelude::*;
use vstd::std_specs::hash::spec_hash_keys_iter;
use vstd::std_specs::iter::IteratorSpec;

verus! {

#[verifier::external_type_specification]
#[verifier::external_body]
pub struct ExFromUtf8Error(FromUtf8Error);

/// `String::from_utf8`: the bytes as a string when they are valid UTF-8, an error otherwise.
#[verifier::external_body]
fn string_from_utf8(bytes: Vec<u8>) -> (r: Result<String, FromUtf8Error>)
    ensures
        r is Ok <==> vstd::utf8::valid_utf8(bytes@),
        r matches Ok(s) ==> s@ == vstd::utf8::decode_utf8(bytes@),
{
    String::from_utf8(bytes)
}

/// What `String::from_utf8_lossy` makes of the bytes.
pub uninterp spec fn utf8_lossy(bytes: Seq<u8>) -> Seq<char>;

/// `String::from_utf8_lossy`, taken as an owned string: the bytes decoded as
/// UTF-8, each invalid sequence replaced by U+FFFD; valid bytes decode as they are.
#[verifier::external_body]
fn string_from_utf8_lossy(bytes: &[u8]) -> (r: String)
    ensures
        r@ == utf8_lossy(bytes@),
        vstd::utf8::valid_utf8(bytes@) ==> r@ == vstd::utf8::decode_utf8(bytes@),
{
    String::from_utf8_lossy(bytes).into_owned()
}

/// `String::into_bytes`: the UTF-8 encoding of the string.
#[verifier::external_body]
fn string_into_bytes(s: String) -> (r: Vec<u8>)
    ensures
        r@ == vstd::utf8::encode_utf8(s@),
{
    s.into_bytes()
}

/// A display name, held as raw bytes.
#[derive(Debug, PartialEq, Eq)]
pub struct Vanity(Vec<u8>);

impl Clone for Vanity {
    fn clone(&self) -> (r: Vanity)
        ensures
            r@ == self@,
    {
        Vanity(self.0.clone())
    }
}

impl View for Vanity {
    type V = Seq<u8>;

    closed spec fn view(&self) -> Seq<u8> {
        self.0@
    }
}

impl Vanity {
    /// The name made from `value` as `Vanity::from` makes it: the bytes of a
    /// `Vec<u8>`, or the UTF-8 bytes of a `String` or `&str`.
    pub fn new<T>(value: T) -> (r: Self) where Vanity: From<T>
        ensures
            call_ensures(<Vanity as From<T>>::from, (value,), r),
    {
        Vanity::from(value)
    }

    pub fn as_bytes(&self) -> (r: &[u8])
        ensures
            r@ == self@,
    {
        self.0.as_slice()
    }

    pub fn into_bytes(self) -> (r: Vec<u8>)
        ensures
            r@ == self@,
    {
        self.0
    }

    /// The name for display: its bytes read as UTF-8, with U+FFFD in place of
    /// each invalid sequence.
    pub fn to_string(&self) -> (r: String)
        ensures
            r@ == utf8_lossy(self@),
            vstd::utf8::valid_utf8(self@) ==> r@ == vstd::utf8::decode_utf8(self@),
    {
        string_from_utf8_lossy(self.0.as_slice())
    }

    /// The name as a string, when its bytes are valid UTF-8.
    pub fn into_string(self) -> (r: Result<String, FromUtf8Error>)
        ensures
            r is Ok <==> vstd::utf8::valid_utf8(self@),
            r matches Ok(s) ==> s@ == vstd::utf8::decode_utf8(self@),
    {
        string_from_utf8(self.0)
    }
}


impl TryFrom<Vanity> for String {
    type Error = FromUtf8Error;

    fn try_from(value: Vanity) -> (r: Result<String, FromUtf8Error>)
        ensures
            r is Ok <==> vstd::utf8::valid_utf8(value@),
            r matches Ok(s) ==> s@ == vstd::utf8::decode_utf8(value@),
    {
        value.into_string()
    }
}

impl vstd::std_specs::convert::TryFromSpecImpl<Vanity> for String {
    /// The error carries `FromUtf8Error`, which is not modelled; the impl's own
    /// `ensures` says what comes back.
    open spec fn obeys_try_from_spec() -> bool {
        false
    }

    open spec fn try_from_spec(value: Vanity) -> Result<String, FromUtf8Error> {
        arbitrary()
    }
}

impl From<String> for Vanity {
    fn from(value: String) -> (r: Vanity)
        ensures
            r@ == vstd::utf8::encode_utf8(value@),
    {
        Vanity(string_into_bytes(value))
    }
}

impl vstd::std_specs::convert::FromSpecImpl<String> for Vanity {
    /// A `Vanity` is not built in specifications from a string's bytes; the
    /// impl's own `ensures` says what comes back.
    open spec fn obeys_from_spec() -> bool {
        false
    }

    open spec fn from_spec(value: String) -> Vanity {
        arbitrary()
    }
}

impl From<&str> for Vanity {
    fn from(value: &str) -> (r: Vanity)
        ensures
            r@ == vstd::utf8::encode_utf8(value@),
    {
        Vanity(vstd::slice::slice_to_vec(value.as_bytes()))
    }
}

impl vstd::std_specs::convert::FromSpecImpl<&str> for Vanity {
    /// As for `String`: the impl's own `ensures` says what comes back.
    open spec fn obeys_from_spec() -> bool {
        false
    }

    open spec fn from_spec(value: &str) -> Vanity {
        arbitrary()
    }
}

impl From<Vec<u8>> for Vanity {
    fn from(value: Vec<u8>) -> (r: Vanity)
        ensures
            r@ == value@,
    {
        Vanity(value)
    }
}

impl vstd::std_specs::convert::FromSpecImpl<Vec<u8>> for Vanity {
    open spec fn obeys_from_spec() -> bool {
        true
    }

    closed spec fn from_spec(value: Vec<u8>) -> Vanity {
        Vanity(value)
    }
}


pub struct Asset {
    id: AssetId,
    name: Vanity,
}

impl Asset {
    pub closed spec fn id_spec(&self) -> AssetId {
        self.id
    }

    pub closed spec fn name_spec(&self) -> Vanity {
        self.name
    }

    pub fn new<N>(id: AssetId, name: N) -> (r: Self) where Vanity: From<N>
        ensures
            r.id_spec() == id,
            call_ensures(<Vanity as From<N>>::from, (name,), r.name_spec()),
    {
        Asset { id, name: Vanity::from(name) }
    }

    #[verifier::when_used_as_spec(id_spec)]
    pub fn id(&self) -> (r: AssetId)
        ensures
            r == self.id_spec(),
    {
        self.id
    }

    pub fn name(&self) -> (r: &Vanity)
        ensures
            *r == self.name_spec(),
    {
        &self.name
    }

    pub fn decimals(&self) -> (r: u8)
        ensures
            r == self.id_spec().decimals_spec(),
    {
        self.id.decimals()
    }

    pub fn min_amount(&self) -> (r: Amount)
        ensures
            r.value() == self.id_spec().min_amount_value(),
            r.decimals() == self.id_spec().decimals_spec(),
    {
        self.id.min_amount()
    }
}

#[derive(Debug, Clone, Copy, PartialEq, Eq, Structural)]
pub enum AccountError {
    InsufficientBalance,
    AmountTooSmall,
}

/// What an account holds, as the specifications see it.
pub struct AccountState {
    pub id: AccountId,
    pub name: Seq<u8>,
    /// Balance per asset code (see `AssetId::code`).
    pub balances: Map<u64, Amount>,
    /// Ids of the account's resting limit orders.
    pub open_orders: Set<OrderId>,
}

/// The balance of `asset`: zero where none was ever set.
pub open spec fn balance_of(balances: Map<u64, Amount>, asset: AssetId) -> Amount {
    if balances.contains_key(asset.code()) {
        balances[asset.code()]
    } else {
        Amount::integer(0)
    }
}

/// The balances that `Account::new` builds from its list: later entries for an
/// asset replace earlier ones.
pub open spec fn balances_from_list(list: Seq<(AssetId, Amount)>) -> Map<u64, Amount>
    decreases list.len(),
{
    if list.len() == 0 {
        Map::empty()
    } else {
        balances_from_list(list.drop_last()).insert(list.last().0.code(), list.last().1)
    }
}

/// No balance of the account is negative.
pub open spec fn balances_non_negative(a: AccountState) -> bool {
    forall|code: u64| #[trigger] a.balances.contains_key(code) ==> a.balances[code].value() >= 0
}

/// Balances built from a list of non-negative amounts are non-negative.
pub proof fn lemma_balances_from_list_non_negative(list: Seq<(AssetId, Amount)>)
    requires
        forall|i: int| 0 <= i < list.len() ==> (#[trigger] list[i]).1.value() >= 0,
    ensures
        forall|code: u64| #[trigger] balances_from_list(list).contains_key(code) ==> balances_from_list(list)[code].value() >= 0,
    decreases list.len(),
{
    if list.len() > 0 {
        let rest = list.drop_last();
        assert forall|i: int| 0 <= i < rest.len() implies (#[trigger] rest[i]).1.value() >= 0 by {
            assert(rest[i] == list[i]);
        }
        lemma_balances_from_list_non_negative(rest);
        assert(list[list.len() - 1] == list.last());
        let m = balances_from_list(list);
        assert forall|code: u64| #[trigger] m.contains_key(code) implies m[code].value() >= 0 by {
            if code != list.last().0.code() {
                assert(balances_from_list(rest).contains_key(code));
            }
        }
    }
}

/// The balance and the unsettled remainder after `saturating_settle(amount)` on a
/// balance of `current`: the balance moves by `amount`, but not below zero.
pub open spec fn saturating_settle_outcome(current: Amount, amount: Amount) -> (Amount, Amount) {
    let settled = if decimal_sum(current, amount).value() < 0 {
        current.negate()
    } else {
        amount
    };
    (decimal_sum(current, settled), decimal_difference(amount, settled))
}

/// A copy of a set of order ids.
pub(crate) fn copy_id_set(s: &HashSet<OrderId>) -> (r: HashSet<OrderId>)
    ensures
        r@ == s@,
{
    let ghost items = spec_hash_keys_iter(s).remaining().map_values(|x: &OrderId| *x);
    let mut r: HashSet<OrderId> = HashSet::new();
    for x in it: s.iter()
        invariant
            it.seq() == spec_hash_keys_iter(s).remaining(),
            items == spec_hash_keys_iter(s).remaining().map_values(|x: &OrderId| *x),
            r@ == items.take(it.index() as int).to_set(),
    {
        r.insert(*x);
        assert(items.take(it.index() + 1) == items.take(it.index() as int).push(*x));
        proof {
            let t = items.take(it.index() as int);
            t.lemma_push_to_set_commute(*x);
        }
    }
    proof {
        vstd::std_specs::hash::axiom_spec_hash_keys_iter(s);
        assert(items.take(items.len() as int) == items);
        assert(spec_hash_keys_iter(s).remaining().unref() == items);
    }
    r
}

/// A trader's wallet: balances per asset and the ids of resting orders.
/// Collateral for an order is taken out of the balance when the order is placed.
#[derive(Debug, PartialEq, Eq)]
pub struct Account {
    id: AccountId,
    name: Vanity,
    balance: HashMap<u64, Amount>,
    orders: HashSet<OrderId>,
}

impl View for Account {
    type V = AccountState;

    closed spec fn view(&self) -> AccountState {
        AccountState {
            id: self.id,
            name: self.name@,
            balances: self.balance@,
            open_orders: self.orders@,
        }
    }
}

impl Clone for Account {
    fn clone(&self) -> (r: Account)
        ensures
            r@ == self@,
    {
        Account {
            id: self.id,
            name: Vanity(self.name.0.clone()),
            balance: self.balance.clone(),
            orders: copy_id_set(&self.orders),
        }
    }
}

impl Account {
    pub fn new<N>(id: AccountId, name: N, balance: Vec<(AssetId, Amount)>) -> (r: Result<Self, AccountError>) where
        Vanity: From<N>,
        ensures
            r is Err <==> exists|i: int| 0 <= i < balance@.len() && (#[trigger] balance@[i]).1.value() < 0,
            r matches Err(e) ==> e == AccountError::InsufficientBalance,
            r matches Ok(a) ==> {
                &&& a@.id == id
                &&& a@.balances == balances_from_list(balance@)
                &&& a@.open_orders == Set::<OrderId>::empty()
                &&& exists|v: Vanity| call_ensures(<Vanity as From<N>>::from, (name,), v) && a@.name == v@
                &&& balances_non_negative(a@)
            },
    {
        let n = balance.len();
        let mut i: usize = 0;
        while i < n
            invariant
                n == balance@.len(),
                i <= n,
                forall|j: int| 0 <= j < i ==> (#[trigger] balance@[j]).1.value() >= 0,
            decreases n - i,
        {
            let (_, amount) = balance[i];
            if decimal_lt(amount, Amount::zero()) {
                return Err(AccountError::InsufficientBalance);
            }
            i = i + 1;
        }
        let mut map: HashMap<u64, Amount> = HashMap::new();
        let mut k: usize = 0;
        while k < n
            invariant
                n == balance@.len(),
                k <= n,
                map@ == balances_from_list(balance@.take(k as int)),
            decreases n - k,
        {
            let (asset, amount) = balance[k];
            assert(balance@.take(k + 1).drop_last() == balance@.take(k as int));
            map.insert(u64::from(asset), amount);
            k = k + 1;
        }
        assert(balance@.take(n as int) == balance@);
        proof {
            lemma_balances_from_list_non_negative(balance@);
        }
        let name = Vanity::from(name);
        Ok(Account { id, name, balance: map, orders: HashSet::new() })
    }

    pub fn id(&self) -> (r: AccountId)
        ensures
            r == self@.id,
    {
        self.id
    }

    pub fn balance(&self, asset_id: AssetId) -> (r: Amount)
        ensures
            r == balance_of(self@.balances, asset_id),
    {
        match self.balance.get(&u64::from(asset_id)) {
            Some(b) => *b,
            None => Amount::zero(),
        }
    }

    pub fn open_orders(&self) -> (r: &HashSet<OrderId>)
        ensures
            r@ == self@.open_orders,
    {
        &self.orders
    }

    pub fn register_open_order(&mut self, order_id: OrderId)
        ensures
            final(self)@ == (AccountState { open_orders: old(self)@.open_orders.insert(order_id), ..old(self)@ }),
    {
        self.orders.insert(order_id);
    }

    pub fn unregister_open_order(&mut self, order_id: OrderId)
        ensures
            final(self)@ == (AccountState { open_orders: old(self)@.open_orders.remove(order_id), ..old(self)@ }),
    {
        self.orders.remove(&order_id);
    }

    pub fn set_balance(&mut self, asset_id: AssetId, balance: Amount) -> (r: Result<(), AccountError>)
        ensures
            r is Err <==> balance.value() < 0,
            r matches Err(e) ==> e == AccountError::InsufficientBalance && *final(self) == *old(self),
            r is Ok ==> final(self)@ == (AccountState {
                balances: old(self)@.balances.insert(asset_id.code(), balance),
                ..old(self)@
            }),
            balances_non_negative(old(self)@) ==> balances_non_negative(final(self)@),
    {
        if decimal_lt(balance, Amount::zero()) {
            return Err(AccountError::InsufficientBalance);
        }
        self.balance.insert(u64::from(asset_id), balance);
        proof {
            if balances_non_negative(old(self)@) {
                assert forall|c: u64| #[trigger] self@.balances.contains_key(c) implies self@.balances[c].value() >= 0 by {
                    if c != asset_id.code() {
                        assert(old(self)@.balances.contains_key(c));
                    }
                }
            }
        }
        Ok(())
    }

    /// Adjusts `balance(asset_id)` by `amount` (negative debits, positive credits);
    /// rejects, and changes nothing, when the balance would go negative.
    pub fn try_settle(&mut self, asset_id: AssetId, amount: Amount) -> (r: Result<(), AccountError>)
        requires
            within_range(balance_of(old(self)@.balances, asset_id).value() + amount.value()),
        ensures
            ({
                let next = decimal_sum(balance_of(old(self)@.balances, asset_id), amount);
                &&& r is Err <==> next.value() < 0
                &&& r matches Err(e) ==> e == AccountError::InsufficientBalance && *final(self) == *old(self)
                &&& r is Ok ==> final(self)@ == (AccountState {
                    balances: old(self)@.balances.insert(asset_id.code(), next),
                    ..old(self)@
                })
                &&& fits_at_scale(
                    balance_of(old(self)@.balances, asset_id).value() + amount.value(),
                    max_scale_of(balance_of(old(self)@.balances, asset_id), amount),
                ) ==> next.value() == balance_of(old(self)@.balances, asset_id).value() + amount.value()
            }),
            balances_non_negative(old(self)@) ==> balances_non_negative(final(self)@),
    {
        let result_balance = decimal_add(self.balance(asset_id), amount);
        if decimal_lt(result_balance, Amount::zero()) {
            return Err(AccountError::InsufficientBalance);
        }
        self.set_balance(asset_id, result_balance)
    }

    /// Moves `balance(asset_id)` by `amount` but not below zero, and returns the
    /// part of `amount` that could not be settled.
    pub fn saturating_settle(&mut self, asset_id: AssetId, amount: Amount) -> (r: Amount)
        requires
            within_range(balance_of(old(self)@.balances, asset_id).value() + amount.value()),
        ensures
            ({
                let (next, rest) = saturating_settle_outcome(balance_of(old(self)@.balances, asset_id), amount);
                &&& r == rest
                &&& final(self)@ == (AccountState {
                    balances: old(self)@.balances.insert(asset_id.code(), next),
                    ..old(self)@
                })
            }),
            balance_of(final(self)@.balances, asset_id).value() >= 0,
            ({
                let c = balance_of(old(self)@.balances, asset_id);
                (fits_at_scale(c.value() + amount.value(), max_scale_of(c, amount)) && c.value() + amount.value() >= 0)
                    ==> balance_of(final(self)@.balances, asset_id).value() == c.value() + amount.value() && r.value() == 0
            }),
            balances_non_negative(old(self)@) ==> balances_non_negative(final(self)@),
    {
        let current_balance = self.balance(asset_id);
        let settled_amount = if decimal_lt(decimal_add(current_balance, amount), Amount::zero()) {
            proof {
                crate::amount::lemma_pow10_positive((28 - current_balance.scale) as nat);
            }
            decimal_neg(current_balance)
        } else {
            proof {
                crate::amount::lemma_pow10_positive((28 - amount.scale) as nat);
            }
            amount
        };
        let next = decimal_add(current_balance, settled_amount);
        assert(next.value() >= 0);
        self.balance.insert(u64::from(asset_id), next);
        decimal_sub(amount, settled_amount)
    }
}


/// The totals per asset code after adding each order's working amount to the
/// entry of the order's asset, in the order given.
pub open spec fn totals_with_orders(totals: Map<u64, Amount>, orders: Seq<Order>) -> Map<u64, Amount>
    decreases orders.len(),
{
    if orders.len() == 0 {
        totals
    } else {
        let prev = totals_with_orders(totals, orders.drop_last());
        let o = orders.last();
        let k = o.asset_id().code();
        if prev.contains_key(k) {
            prev.insert(k, decimal_sum(prev[k], o.amount()))
        } else {
            prev.insert(k, o.amount())
        }
    }
}

/// Every addition of `totals_with_orders` stays within range.
pub open spec fn totals_computable(totals: Map<u64, Amount>, orders: Seq<Order>) -> bool
    decreases orders.len(),
{
    if orders.len() == 0 {
        true
    } else {
        let prev = totals_with_orders(totals, orders.drop_last());
        let o = orders.last();
        let k = o.asset_id().code();
        &&& totals_computable(totals, orders.drop_last())
        &&& prev.contains_key(k) ==> within_range(prev[k].value() + o.amount().value())
    }
}

/// Account information for display: balances including what resting orders hold,
/// free balances, and open order ids.
#[derive(Debug, PartialEq, Eq)]
pub struct AccountInfo {
    id: AccountId,
    name: Vanity,
    total_balances: HashMap<u64, Amount>,
    free_balance: HashMap<u64, Amount>,
    orders: HashSet<OrderId>,
}

impl Clone for AccountInfo {
    fn clone(&self) -> (r: AccountInfo)
        ensures
            r.id_spec() == self.id_spec(),
            r.name_spec()@ == self.name_spec()@,
            r.total_balances_spec() == self.total_balances_spec(),
            r.free_balance_spec() == self.free_balance_spec(),
            r.orders_spec() == self.orders_spec(),
    {
        AccountInfo {
            id: self.id,
            name: self.name.clone(),
            total_balances: self.total_balances.clone(),
            free_balance: self.free_balance.clone(),
            orders: copy_id_set(&self.orders),
        }
    }
}

impl AccountInfo {
    pub closed spec fn id_spec(&self) -> AccountId {
        self.id
    }

    pub closed spec fn name_spec(&self) -> Vanity {
        self.name
    }

    pub closed spec fn total_balances_spec(&self) -> Map<u64, Amount> {
        self.total_balances@
    }

    pub closed spec fn free_balance_spec(&self) -> Map<u64, Amount> {
        self.free_balance@
    }

    pub closed spec fn orders_spec(&self) -> Set<OrderId> {
        self.orders@
    }

    /// The account's information; each order's working amount is added to the
    /// total of its own asset. The orders are a set: none is listed twice.
    pub fn new(account: &Account, orders: &Vec<Order>) -> (r: Self)
        requires
            orders@.no_duplicates(),
            totals_computable(account@.balances, orders@),
        ensures
            r.id_spec() == account@.id,
            r.name_spec()@ == account@.name,
            r.total_balances_spec() == totals_with_orders(account@.balances, orders@),
            r.free_balance_spec() == account@.balances,
            r.orders_spec() == account@.open_orders,
    {
        let mut total_balances = account.balance.clone();
        let n = orders.len();
        let mut i: usize = 0;
        while i < n
            invariant
                n == orders@.len(),
                i <= n,
                totals_computable(account@.balances, orders@),
                total_balances@ == totals_with_orders(account@.balances, orders@.take(i as int)),
            decreases n - i,
        {
            let order = orders[i];
            let k = u64::from(order.asset_id());
            proof {
                assert(orders@.take(i + 1).drop_last() == orders@.take(i as int));
                lemma_totals_computable_prefix(account@.balances, orders@, i + 1);
            }
            match total_balances.get(&k) {
                Some(b) => {
                    let sum = decimal_add(*b, order.amount());
                    total_balances.insert(k, sum);
                },
                None => {
                    total_balances.insert(k, order.amount());
                },
            }
            i = i + 1;
        }
        assert(orders@.take(n as int) == orders@);
        AccountInfo {
            id: account.id,
            name: account.name.clone(),
            total_balances,
            free_balance: account.balance.clone(),
            orders: copy_id_set(&account.orders),
        }
    }

    pub fn id(&self) -> (r: AccountId)
        ensures
            r == self.id_spec(),
    {
        self.id
    }

    pub fn name(&self) -> (r: &Vanity)
        ensures
            *r == self.name_spec(),
    {
        &self.name
    }

    pub fn total_balances(&self) -> (r: &HashMap<u64, Amount>)
        ensures
            r@ == self.total_balances_spec(),
    {
        &self.total_balances
    }

    pub fn free_balance(&self) -> (r: &HashMap<u64, Amount>)
        ensures
            r@ == self.free_balance_spec(),
    {
        &self.free_balance
    }

    pub fn orders(&self) -> (r: &HashSet<OrderId>)
        ensures
            r@ == self.orders_spec(),
    {
        &self.orders
    }
}

/// Computability of the totals carries over to every prefix of the orders.
proof fn lemma_totals_computable_prefix(totals: Map<u64, Amount>, orders: Seq<Order>, k: int)
    requires
        totals_computable(totals, orders),
        0 <= k <= orders.len(),
    ensures
        totals_computable(totals, orders.take(k)),
    decreases orders.len(),
{
    if k < orders.len() {
        assert(orders.take(k) == orders.drop_last().take(k));
        lemma_totals_computable_prefix(totals, orders.drop_last(), k);
    } else {
        assert(orders.take(k) == orders);
    }
}

} // verus!
