use crate::entities::Balances;
use crate::trade_house::{FailedOffer, Payload, StockOption, Trade, TradeAction};
use crate::transaction::{TodoTransactions, Transaction};
use crate::{SimulationError, TIMELINE_SIZE_LIMIT};
use std::collections::HashMap;
use vstd::prelude::*;
use vstd::std_specs::hash::spec_keys_iter;
use vstd::std_specs::iter::IteratorSpec;

verus! {

broadcast use vstd::std_specs::hash::group_hash_axioms;

/// The key of an (agent, company) pair: the agent in the high 64 bits, the
/// company in the low 64 bits.
pub open spec fn key_of(agent_id: u64, company_id: u64) -> u128 {
    (agent_id as int * 0x1_0000_0000_0000_0000 + company_id as int) as u128
}

/// The agent half of a pair key.
pub open spec fn agent_of(key: u128) -> u64 {
    (key as int / 0x1_0000_0000_0000_0000) as u64
}

/// The company half of a pair key.
pub open spec fn company_of(key: u128) -> u64 {
    (key as int % 0x1_0000_0000_0000_0000) as u64
}

/// The pair key is a bijection between (agent, company) pairs and `u128` values.
pub proof fn lemma_pair_key_bijection(agent_id: u64, company_id: u64, key: u128)
    ensures
        agent_of(key_of(agent_id, company_id)) == agent_id,
        company_of(key_of(agent_id, company_id)) == company_id,
        key_of(agent_of(key), company_of(key)) == key,
{
    let k = key_of(agent_id, company_id);
    assert((agent_id as int) * 0x1_0000_0000_0000_0000 + (company_id as int) < 0x1_0000_0000_0000_0000 * 0x1_0000_0000_0000_0000) by (nonlinear_arith)
        requires agent_id < 0x1_0000_0000_0000_0000, company_id < 0x1_0000_0000_0000_0000;
    vstd::arithmetic::div_mod::lemma_fundamental_div_mod_converse(
        k as int, 0x1_0000_0000_0000_0000, agent_id as int, company_id as int);
    vstd::arithmetic::div_mod::lemma_fundamental_div_mod(key as int, 0x1_0000_0000_0000_0000);
}

/// Pair keys of distinct pairs differ.
pub proof fn lemma_pair_key_injective(a1: u64, c1: u64, a2: u64, c2: u64)
    ensures
        key_of(a1, c1) == key_of(a2, c2) <==> (a1 == a2 && c1 == c2),
{
    lemma_pair_key_bijection(a1, c1, 0);
    lemma_pair_key_bijection(a2, c2, 0);
}

/// Packs an (agent, company) pair into one key.
pub fn combine(a: u64, b: u64) -> (r: u128)
    ensures
        r == key_of(a, b),
{
    let r = (a as u128) << 64 | b as u128;
    assert(((a as u128) << 64u128) | (b as u128) == (a as u128) * 0x1_0000_0000_0000_0000u128 + (b as u128)) by (bit_vector);
    r
}

/// The agent of a pair key.
pub fn get_first(a: u128) -> (r: u64)
    ensures
        r == agent_of(a),
{
    assert((a >> 64u128) == a / 0x1_0000_0000_0000_0000u128) by (bit_vector);
    (a >> 64) as u64
}

/// The company of a pair key.
pub fn get_second(a: u128) -> (r: u64)
    ensures
        r == company_of(a),
{
    assert((a & 0xFFFF_FFFF_FFFF_FFFFu128) == a % 0x1_0000_0000_0000_0000u128) by (bit_vector);
    (a & 0xFFFFFFFFFFFFFFFF) as u64
}

/// Number of shares stored under `key`, zero where there is no entry.
pub open spec fn shares_at(h: Map<u128, u64>, key: u128) -> nat {
    if h.contains_key(key) {
        h[key] as nat
    } else {
        0
    }
}

/// No (agent, company) pair has two retry entries.
pub open spec fn retries_unique(s: Seq<RetryOffer>) -> bool {
    forall|i: int, j: int| 0 <= i < j < s.len() ==> !(#[trigger] s[i].agent_id == #[trigger] s[j].agent_id && s[i].company_id == s[j].company_id)
}

/// Every holding belongs to one of the agents `0 .. n`.
pub open spec fn keys_within(h: Map<u128, u64>, n: nat) -> bool {
    forall|k: u128| #[trigger] h.contains_key(k) ==> agent_of(k) < n
}

/// Setting the holding of a known agent keeps every holding with a known agent.
pub proof fn lemma_keys_within_put(h: Map<u128, u64>, n: nat, a: u64, c: u64, v: u64)
    requires
        keys_within(h, n),
        a < n,
    ensures
        keys_within(h.insert(key_of(a, c), v), n),
{
    lemma_pair_key_bijection(a, c, 0);
}

/// Taking shares from a pair keeps every holding with a known agent.
pub proof fn lemma_keys_within_take(h: Map<u128, u64>, n: nat, a: u64, c: u64, q: int)
    requires
        keys_within(h, n),
    ensures
        keys_within(take_shares_spec(h, key_of(a, c), q), n),
{
}

/// Share count of each (agent, company) pair, keyed by the pair key.
#[derive(Debug)]
pub struct Holdings(pub HashMap<u128, u64>);

impl View for Holdings {
    type V = Map<u128, u64>;

    open spec fn view(&self) -> Map<u128, u64> {
        self.0@
    }
}

impl Holdings {
    /// No holdings.
    pub fn new() -> (r: Self)
        ensures
            r@ == Map::<u128, u64>::empty(),
    {
        Holdings(HashMap::new())
    }

    /// Sets the share count of a pair.
    pub fn insert(&mut self, agent_id: u64, company_id: u64, number_of_shares: u64)
        ensures
            final(self)@ == old(self)@.insert(key_of(agent_id, company_id), number_of_shares),
    {
        self.0.insert(combine(agent_id, company_id), number_of_shares);
    }

    /// Share count of a pair, zero if it holds none.
    pub fn get(&self, agent_id: u64, company_id: u64) -> (r: u64)
        ensures
            r == shares_at(self@, key_of(agent_id, company_id)),
    {
        self.get_u128(combine(agent_id, company_id))
    }

    /// Share count stored under a pair key, zero if there is none.
    pub fn get_u128(&self, id: u128) -> (r: u64)
        ensures
            r == shares_at(self@, id),
    {
        match self.0.get(&id) {
            Some(share_count) => *share_count,
            None => 0,
        }
    }

    /// Credits the shares of a transaction to an agent.
    pub fn push_from_txn(&mut self, target_agent_id: u64, transaction: &Transaction)
        requires
            shares_at(old(self)@, key_of(target_agent_id, transaction.company_id)) + transaction.number_of_shares <= u64::MAX,
        ensures
            final(self)@ == old(self)@.insert(
                key_of(target_agent_id, transaction.company_id),
                (shares_at(old(self)@, key_of(target_agent_id, transaction.company_id)) + transaction.number_of_shares) as u64,
            ),
    {
        self.push(target_agent_id, transaction.company_id, transaction.number_of_shares);
    }

    /// Debits the shares of a transaction from an agent; fails, changing
    /// nothing, when it holds fewer.
    pub fn pop_from_txn(&mut self, target_agent_id: u64, transaction: &Transaction) -> (r: Result<(), SimulationError>)
        ensures
            ({
                let key = key_of(target_agent_id, transaction.company_id);
                let n = transaction.number_of_shares;
                if n > shares_at(old(self)@, key) {
                    r == Err::<(), SimulationError>(SimulationError::Unspendable) && final(self)@ == old(self)@
                } else if old(self)@.contains_key(key) {
                    r is Ok && final(self)@ == old(self)@.insert(key, (old(self)@[key] - n) as u64)
                } else {
                    r is Ok && final(self)@ == old(self)@
                }
            }),
    {
        self.pop(target_agent_id, transaction.company_id, transaction.number_of_shares)
    }

    /// Credits shares to a pair.
    pub fn push(&mut self, agent_id: u64, company_id: u64, number_of_shares: u64)
        requires
            shares_at(old(self)@, key_of(agent_id, company_id)) + number_of_shares <= u64::MAX,
        ensures
            final(self)@ == old(self)@.insert(
                key_of(agent_id, company_id),
                (shares_at(old(self)@, key_of(agent_id, company_id)) + number_of_shares) as u64,
            ),
    {
        let key = combine(agent_id, company_id);
        let share_count = self.get_u128(key);
        self.0.insert(key, share_count + number_of_shares);
    }

    /// Debits shares from a pair; fails, changing nothing, when it holds fewer.
    pub fn pop(&mut self, agent_id: u64, company_id: u64, number_of_shares: u64) -> (r: Result<(), SimulationError>)
        ensures
            ({
                let key = key_of(agent_id, company_id);
                if number_of_shares > shares_at(old(self)@, key) {
                    r == Err::<(), SimulationError>(SimulationError::Unspendable) && final(self)@ == old(self)@
                } else if old(self)@.contains_key(key) {
                    r is Ok && final(self)@ == old(self)@.insert(key, (old(self)@[key] - number_of_shares) as u64)
                } else {
                    r is Ok && final(self)@ == old(self)@
                }
            }),
    {
        let key = combine(agent_id, company_id);
        match self.0.get(&key) {
            Some(share_count) => {
                let share_count = *share_count;
                if share_count < number_of_shares {
                    return Err(SimulationError::Unspendable);
                }
                self.0.insert(key, share_count - number_of_shares);
                Ok(())
            },
            None => {
                if number_of_shares > 0 {
                    return Err(SimulationError::Unspendable);
                }
                Ok(())
            },
        }
    }
}

} // verus!

verus! {

/// A bounded log of (company, side) preferences; once full it is overwritten
/// circularly from `target_index`.
#[derive(Debug)]
pub struct Timeline {
    pub data: Vec<(u64, TradeAction)>,
    pub target_index: usize,
}

/// The preference timelines of every agent, indexed by agent id.
#[derive(Debug)]
pub struct Preferences(pub Vec<Timeline>);

/// The agents: cash, shares, preferences, and the offers each wants to retry.
#[derive(Debug)]
pub struct Agents {
    pub num_of_agents: u64,
    pub holdings: Holdings,
    pub balances: Balances,
    pub preferences: Preferences,
    pub try_offers: Vec<RetryOffer>,
}

/// An expired offer that its agent may submit again at a new price.
#[derive(Debug, Clone, Copy, PartialEq, Eq, Structural)]
pub struct RetryOffer {
    pub agent_id: u64,
    pub company_id: u64,
    pub action: TradeAction,
    pub price: u64,
}

impl Agents {
    /// Every agent has a balance and a timeline.
    pub open spec fn wf(&self) -> bool {
        &&& self.balances@.len() == self.num_of_agents
        &&& self.preferences.0@.len() == self.num_of_agents
        &&& keys_within(self.holdings@, self.num_of_agents as nat)
        &&& retries_unique(self.try_offers@)
    }

    /// No agents.
    pub fn new() -> (r: Self)
        ensures
            r.wf(),
            r.num_of_agents == 0,
            r.holdings@ == Map::<u128, u64>::empty(),
            r.try_offers@ == Seq::<RetryOffer>::empty(),
    {
        Agents {
            num_of_agents: 0,
            holdings: Holdings::new(),
            balances: Balances::new(),
            preferences: Preferences(Vec::new()),
            try_offers: Vec::new(),
        }
    }
}

} // verus!

verus! {

/// `h` with `n` shares added under `key`.
pub open spec fn add_shares_spec(h: Map<u128, u64>, key: u128, n: int) -> Map<u128, u64> {
    h.insert(key, (shares_at(h, key) + n) as u64)
}

/// `h` with `n` shares taken from under `key`; an absent key stays absent.
pub open spec fn take_shares_spec(h: Map<u128, u64>, key: u128, n: int) -> Map<u128, u64> {
    if h.contains_key(key) {
        h.insert(key, (h[key] - n) as u64)
    } else {
        h
    }
}

} // verus!

verus! {

/// The retry table after `agent_id`'s offer on `company_id` expired: its entry
/// for that pair is replaced, or one is appended, with a price a quarter more
/// generous (a buy retries at `price + price / 4`, at most `u64::MAX`, a sell
/// at `price - price / 4`).
pub open spec fn with_retry(s: Seq<RetryOffer>, agent_id: u64, company_id: u64, price: u64, action: TradeAction) -> Seq<RetryOffer> {
    let e = RetryOffer { agent_id, company_id, action, price: retry_price(price, action) };
    let i = retry_index(s, agent_id, company_id);
    if i < s.len() {
        s.update(i, e)
    } else {
        s.push(e)
    }
}

/// The price at which an expired offer is retried.
pub open spec fn retry_price(price: u64, action: TradeAction) -> u64 {
    match action {
        TradeAction::Buy => if price + price / 4 > u64::MAX {
            u64::MAX
        } else {
            (price + price / 4) as u64
        },
        TradeAction::Sell => (price - price / 4) as u64,
    }
}

/// Index of the retry entry of a pair, or `s.len()` if it has none.
pub open spec fn retry_index(s: Seq<RetryOffer>, agent_id: u64, company_id: u64) -> int
    decreases s.len(),
{
    if s.len() == 0 {
        0
    } else if s[0].agent_id == agent_id && s[0].company_id == company_id {
        0
    } else {
        1 + retry_index(s.skip(1), agent_id, company_id)
    }
}

proof fn lemma_retry_index(s: Seq<RetryOffer>, agent_id: u64, company_id: u64)
    ensures
        0 <= retry_index(s, agent_id, company_id) <= s.len(),
        retry_index(s, agent_id, company_id) < s.len() ==> s[retry_index(s, agent_id, company_id)].agent_id == agent_id
            && s[retry_index(s, agent_id, company_id)].company_id == company_id,
        forall|j: int| 0 <= j < retry_index(s, agent_id, company_id) ==> !(#[trigger] s[j].agent_id == agent_id && s[j].company_id == company_id),
    decreases s.len(),
{
    if s.len() > 0 && !(s[0].agent_id == agent_id && s[0].company_id == company_id) {
        lemma_retry_index(s.skip(1), agent_id, company_id);
        assert forall|j: int| 0 <= j < retry_index(s, agent_id, company_id) implies !(#[trigger] s[j].agent_id == agent_id && s[j].company_id == company_id) by {
            if j > 0 {
                assert(s[j] == s.skip(1)[j - 1]);
            }
        }
    }
}

/// The ledger after refunding one expired offer to its offerer: the cash of a
/// buy offer, the shares of a sell offer, where the balance or holding can
/// take them.
pub open spec fn refunded<T: Payload>(b: Seq<u64>, h: Map<u128, u64>, company_id: u64, f: FailedOffer<T>) -> (Seq<u64>, Map<u128, u64>) {
    let o = f.0;
    let n = o.data.shares();
    match f.1 {
        TradeAction::Sell => {
            let key = key_of(o.offerer_id, company_id);
            if o.offerer_id < b.len() && shares_at(h, key) + n <= u64::MAX {
                (b, h.insert(key, (shares_at(h, key) + n) as u64))
            } else {
                (b, h)
            }
        },
        TradeAction::Buy => {
            let cash = o.strike_price as int * n as int;
            if o.offerer_id < b.len() && b[o.offerer_id as int] + cash <= u64::MAX {
                (b.update(o.offerer_id as int, (b[o.offerer_id as int] + cash) as u64), h)
            } else {
                (b, h)
            }
        },
    }
}

/// Whether the ledger can take the refund of one expired offer: its offerer is
/// known (for cash) and the balance or holding stays within `u64`.
pub open spec fn refund_fits<T: Payload>(b: Seq<u64>, h: Map<u128, u64>, company_id: u64, f: FailedOffer<T>) -> bool {
    let o = f.0;
    let n = o.data.shares();
    match f.1 {
        TradeAction::Sell => o.offerer_id < b.len() && shares_at(h, key_of(o.offerer_id, company_id)) + n <= u64::MAX,
        TradeAction::Buy => o.offerer_id < b.len() && b[o.offerer_id as int] + o.strike_price as int * n as int <= u64::MAX,
    }
}

/// Whether every refund of the expired offers of `s`, taken in order, could be
/// applied.
pub open spec fn refunds_all_fit<T: Payload>(b: Seq<u64>, h: Map<u128, u64>, company_id: u64, s: Seq<FailedOffer<T>>) -> bool
    decreases s.len(),
{
    if s.len() == 0 {
        true
    } else {
        let (b1, h1) = refunded_all(b, h, company_id, s.drop_last());
        refunds_all_fit(b, h, company_id, s.drop_last()) && refund_fits(b1, h1, company_id, s.last())
    }
}

/// The ledger after refunding the expired offers of `s`, in order.
pub open spec fn refunded_all<T: Payload>(b: Seq<u64>, h: Map<u128, u64>, company_id: u64, s: Seq<FailedOffer<T>>) -> (Seq<u64>, Map<u128, u64>)
    decreases s.len(),
{
    if s.len() == 0 {
        (b, h)
    } else {
        let (b1, h1) = refunded_all(b, h, company_id, s.drop_last());
        refunded(b1, h1, company_id, s.last())
    }
}

/// The retry table after recording the expired offers of `s`, in order.
pub open spec fn retried_all<T: Payload>(t: Seq<RetryOffer>, company_id: u64, s: Seq<FailedOffer<T>>) -> Seq<RetryOffer>
    decreases s.len(),
{
    if s.len() == 0 {
        t
    } else {
        let f = s.last();
        with_retry(retried_all(t, company_id, s.drop_last()), f.0.offerer_id, company_id, f.0.strike_price, f.1)
    }
}

impl Agents {
    /// Escrows what an order needs: a buyer's `price * quantity` cash, a
    /// seller's shares. Fails, changing nothing, on an unknown buyer or too
    /// little cash or shares.
    pub fn deduct_assets_from_todotransaction(&mut self, todo_transaction: &TodoTransactions) -> (r: Result<(), SimulationError>)
        requires
            old(self).wf(),
        ensures
            final(self).wf(),
            final(self).num_of_agents == old(self).num_of_agents,
            final(self).preferences == old(self).preferences,
            final(self).try_offers == old(self).try_offers,
            ({
                let t = *todo_transaction;
                let b = old(self).balances@;
                let h = old(self).holdings@;
                let key = key_of(t.agent_id, t.company_id);
                let cash = t.strike_price as int * t.trade.number_of_shares as int;
                match t.action {
                    TradeAction::Sell => if t.trade.number_of_shares > shares_at(h, key) {
                        r == Err::<(), SimulationError>(SimulationError::Unspendable) && final(self).balances@ == b && final(self).holdings@ == h
                    } else {
                        r is Ok && final(self).balances@ == b
                            && final(self).holdings@ == (if h.contains_key(key) { h.insert(key, (h[key] - t.trade.number_of_shares) as u64) } else { h })
                    },
                    TradeAction::Buy => if t.agent_id >= b.len() {
                        r == Err::<(), SimulationError>(SimulationError::AgentNotFound(t.agent_id)) && final(self).balances@ == b && final(self).holdings@ == h
                    } else if cash > b[t.agent_id as int] {
                        r == Err::<(), SimulationError>(SimulationError::Unspendable) && final(self).balances@ == b && final(self).holdings@ == h
                    } else {
                        r is Ok && final(self).holdings@ == h
                            && final(self).balances@ == b.update(t.agent_id as int, (b[t.agent_id as int] - cash) as u64)
                    },
                }
            }),
    {
        let t = todo_transaction;
        match t.action {
            TradeAction::Sell => {
                proof { lemma_keys_within_take(self.holdings@, self.num_of_agents as nat, t.agent_id, t.company_id, t.trade.number_of_shares as int); }
                self.holdings.pop(t.agent_id, t.company_id, t.trade.number_of_shares)
            },
            TradeAction::Buy => {
                if t.agent_id >= self.balances.0.len() as u64 {
                    return Err(SimulationError::AgentNotFound(t.agent_id));
                }
                let bal = self.balances.0[t.agent_id as usize];
                assert(t.strike_price as int * t.trade.number_of_shares as int <= u64::MAX as int * u64::MAX as int) by (nonlinear_arith)
                    requires t.strike_price <= u64::MAX, t.trade.number_of_shares <= u64::MAX;
                let cash: u128 = t.strike_price as u128 * t.trade.number_of_shares as u128;
                if cash > bal as u128 {
                    return Err(SimulationError::Unspendable);
                }
                self.balances.add(t.agent_id, -(cash as i128))
            },
        }
    }

    /// Settles a fill whose escrow was taken when the orders were placed: the
    /// buyer is credited the shares and the seller the cash. Fails, changing
    /// nothing, on an unknown agent or an amount the ledger cannot hold.
    pub fn exchange_assets_from_transaction(&mut self, transaction: &Transaction) -> (r: Result<(), SimulationError>)
        requires
            old(self).wf(),
        ensures
            final(self).wf(),
            final(self).num_of_agents == old(self).num_of_agents,
            final(self).preferences == old(self).preferences,
            final(self).try_offers == old(self).try_offers,
            ({
                let tx = *transaction;
                let b = old(self).balances@;
                let h = old(self).holdings@;
                let key = key_of(tx.buyer_id, tx.company_id);
                let cash = tx.strike_price as int * tx.number_of_shares as int;
                if tx.buyer_id >= b.len() {
                    r == Err::<(), SimulationError>(SimulationError::AgentNotFound(tx.buyer_id)) && final(self).balances@ == b && final(self).holdings@ == h
                } else if tx.seller_id >= b.len() {
                    r == Err::<(), SimulationError>(SimulationError::AgentNotFound(tx.seller_id)) && final(self).balances@ == b && final(self).holdings@ == h
                } else if shares_at(h, key) + tx.number_of_shares > u64::MAX || b[tx.seller_id as int] + cash > u64::MAX {
                    r == Err::<(), SimulationError>(SimulationError::Unspendable) && final(self).balances@ == b && final(self).holdings@ == h
                } else {
                    &&& r is Ok
                    &&& final(self).holdings@ == h.insert(key, (shares_at(h, key) + tx.number_of_shares) as u64)
                    &&& final(self).balances@ == b.update(tx.seller_id as int, (b[tx.seller_id as int] + cash) as u64)
                }
            }),
    {
        let tx = transaction;
        if tx.buyer_id >= self.balances.0.len() as u64 {
            return Err(SimulationError::AgentNotFound(tx.buyer_id));
        }
        if tx.seller_id >= self.balances.0.len() as u64 {
            return Err(SimulationError::AgentNotFound(tx.seller_id));
        }
        let held = self.holdings.get(tx.buyer_id, tx.company_id);
        let bal = self.balances.0[tx.seller_id as usize];
        assert(tx.strike_price as int * tx.number_of_shares as int <= u64::MAX as int * u64::MAX as int) by (nonlinear_arith)
            requires tx.strike_price <= u64::MAX, tx.number_of_shares <= u64::MAX;
        let cash: u128 = tx.strike_price as u128 * tx.number_of_shares as u128;
        if tx.number_of_shares > u64::MAX - held || cash > (u64::MAX - bal) as u128 {
            return Err(SimulationError::Unspendable);
        }
        self.holdings.push_from_txn(tx.buyer_id, tx);
        self.balances.add(tx.seller_id, cash as i128)
    }

    /// Records that an offer expired, so that its agent may retry it later at a
    /// price a quarter more generous.
    pub fn add_failed_offer(&mut self, company_id: u64, agent_id: u64, failed_price: u64, offer_type: &TradeAction)
        ensures
            final(self).try_offers@ == with_retry(old(self).try_offers@, agent_id, company_id, failed_price, *offer_type),
            retries_unique(old(self).try_offers@) ==> retries_unique(final(self).try_offers@),
            final(self).num_of_agents == old(self).num_of_agents,
            final(self).balances == old(self).balances,
            final(self).holdings == old(self).holdings,
            final(self).preferences == old(self).preferences,
    {
        let price = match offer_type {
            TradeAction::Buy => if failed_price > u64::MAX - failed_price / 4 {
                u64::MAX
            } else {
                failed_price + failed_price / 4
            },
            TradeAction::Sell => failed_price - failed_price / 4,
        };
        proof { lemma_retry_index(self.try_offers@, agent_id, company_id); }
        assert(price == retry_price(failed_price, *offer_type));
        let e = RetryOffer { agent_id, company_id, action: *offer_type, price };
        let mut i: usize = 0;
        while i < self.try_offers.len()
            invariant
                i <= self.try_offers@.len(),
                i <= retry_index(self.try_offers@, agent_id, company_id),
                self.try_offers@ == old(self).try_offers@,
                e == (RetryOffer { agent_id, company_id, action: *offer_type, price: retry_price(failed_price, *offer_type) }),
                self.num_of_agents == old(self).num_of_agents,
                self.balances == old(self).balances,
                self.holdings == old(self).holdings,
                self.preferences == old(self).preferences,
                0 <= retry_index(self.try_offers@, agent_id, company_id) <= self.try_offers@.len(),
                retry_index(self.try_offers@, agent_id, company_id) < self.try_offers@.len() ==>
                    self.try_offers@[retry_index(self.try_offers@, agent_id, company_id)].agent_id == agent_id
                    && self.try_offers@[retry_index(self.try_offers@, agent_id, company_id)].company_id == company_id,
                forall|j: int| 0 <= j < retry_index(self.try_offers@, agent_id, company_id) ==> !(#[trigger] self.try_offers@[j].agent_id == agent_id && self.try_offers@[j].company_id == company_id),
            decreases self.try_offers.len() - i,
        {
            if self.try_offers[i].agent_id == agent_id && self.try_offers[i].company_id == company_id {
                proof {
                    let ri = retry_index(self.try_offers@, agent_id, company_id);
                    if (i as int) < ri {
                        assert(!(self.try_offers@[i as int].agent_id == agent_id && self.try_offers@[i as int].company_id == company_id));
                    }
                    assert(i as int == ri);
                }
                self.try_offers.set(i, e);
                return;
            }
            i += 1;
        }
        self.try_offers.push(e);
    }
}

} // verus!

verus! {

impl Agents {
    /// Refunds the expired offers of one company to their offerers, in order,
    /// and records each for a later retry: a buy offer's cash (price times
    /// quantity) and a sell offer's shares go back where the balance or
    /// holding can take them.
    pub fn refund_expired<T: Payload>(&mut self, company_id: u64, offers: &Vec<FailedOffer<T>>) -> (r: Result<(), SimulationError>)
        requires
            old(self).wf(),
        ensures
            r == if refunds_all_fit(old(self).balances@, old(self).holdings@, company_id, offers@) {
                Ok::<(), SimulationError>(())
            } else {
                Err(SimulationError::Unspendable)
            },
            final(self).wf(),
            final(self).num_of_agents == old(self).num_of_agents,
            final(self).preferences == old(self).preferences,
            (final(self).balances@, final(self).holdings@) == refunded_all(old(self).balances@, old(self).holdings@, company_id, offers@),
            final(self).try_offers@ == retried_all(old(self).try_offers@, company_id, offers@),
    {
        let mut all_fit = true;
        let mut i: usize = 0;
        while i < offers.len()
            invariant
                i <= offers@.len(),
                self.wf(),
                self.num_of_agents == old(self).num_of_agents,
                self.preferences == old(self).preferences,
                all_fit == refunds_all_fit(old(self).balances@, old(self).holdings@, company_id, offers@.take(i as int)),
                (self.balances@, self.holdings@) == refunded_all(old(self).balances@, old(self).holdings@, company_id, offers@.take(i as int)),
                self.try_offers@ == retried_all(old(self).try_offers@, company_id, offers@.take(i as int)),
            decreases offers.len() - i,
        {
            proof { assert(offers@.take(i + 1).drop_last() =~= offers@.take(i as int)); }
            let f = &offers[i];
            let o = f.0;
            let n = o.data.number_of_shares();
            match f.1 {
                TradeAction::Sell => {
                    let held = self.holdings.get(o.offerer_id, company_id);
                    if o.offerer_id < self.num_of_agents && n <= u64::MAX - held {
                        proof { lemma_keys_within_put(self.holdings@, self.num_of_agents as nat, o.offerer_id, company_id, (held + n) as u64); }
                        self.holdings.push(o.offerer_id, company_id, n);
                    } else {
                        all_fit = false;
                    }
                },
                TradeAction::Buy => {
                    assert(o.strike_price as int * n as int <= u64::MAX as int * u64::MAX as int) by (nonlinear_arith)
                        requires o.strike_price <= u64::MAX, n <= u64::MAX;
                    let cash: u128 = o.strike_price as u128 * n as u128;
                    if o.offerer_id < self.balances.0.len() as u64 && cash <= (u64::MAX - self.balances.0[o.offerer_id as usize]) as u128 {
                        let _ = self.balances.add(o.offerer_id, cash as i128);
                    } else {
                        all_fit = false;
                    }
                },
            }
            self.add_failed_offer(company_id, o.offerer_id, o.strike_price, &f.1);
            i += 1;
        }
        proof { assert(offers@.take(offers@.len() as int) =~= offers@); }
        if all_fit {
            Ok(())
        } else {
            Err(SimulationError::Unspendable)
        }
    }

    /// Refunds the expired offers of every company in `expired`, company by
    /// company in the order `keys` lists them; `keys` lists each key once.
    fn refund_map<T: Payload>(&mut self, expired: &HashMap<u64, Vec<FailedOffer<T>>>) -> (fit: bool)
        requires
            old(self).wf(),
        ensures
            final(self).wf(),
            final(self).num_of_agents == old(self).num_of_agents,
            final(self).preferences == old(self).preferences,
            exists|keys: Seq<u64>| {
                &&& keys.no_duplicates()
                &&& keys.to_set() == expired@.dom()
                &&& (final(self).balances@, final(self).holdings@, final(self).try_offers@)
                    == refund_companies((old(self).balances@, old(self).holdings@, old(self).try_offers@), keys, expired@)
                &&& fit == refund_companies_fit((old(self).balances@, old(self).holdings@, old(self).try_offers@), keys, expired@)
            },
    {
        let ghost ks = spec_keys_iter(expired).remaining();
        let ghost st0 = (self.balances@, self.holdings@, self.try_offers@);
        proof {
            assert(ks.unref().to_set() == expired@.dom());
            assert(ks.no_duplicates());
        }
        let mut fit = true;
        for company_id in it: expired.keys()
            invariant
                it.seq() == ks,
                ks.unref().to_set() == expired@.dom(),
                fit == refund_companies_fit(st0, ks.unref().take(it.index() as int), expired@),
                self.wf(),
                self.num_of_agents == old(self).num_of_agents,
                self.preferences == old(self).preferences,
                st0 == (old(self).balances@, old(self).holdings@, old(self).try_offers@),
                (self.balances@, self.holdings@, self.try_offers@) == refund_companies(st0, ks.unref().take(it.index() as int), expired@),
        {
            let ghost j = it.index();
            proof {
                assert(it.seq().take(j + 1) =~= it.seq().take(j).push(company_id));
                assert(ks.unref().take(j + 1) =~= ks.unref().take(j).push(*company_id));
                assert(ks.unref().take(j + 1).drop_last() =~= ks.unref().take(j));
                assert(ks.unref()[j] == *company_id);
                assert(ks.unref().to_set().contains(*company_id));
            }
            match expired.get(company_id) {
                Some(offers) => {
                    if self.refund_expired(*company_id, offers).is_err() {
                        fit = false;
                    }
                },
                None => {
                    assert(false);
                },
            }
        }
        proof {
            assert(ks.unref().take(ks.len() as int) =~= ks.unref());
            assert forall|a: int, b: int| 0 <= a < ks.unref().len() && 0 <= b < ks.unref().len() && a != b
                implies ks.unref()[a] != ks.unref()[b] by {
                assert(ks[a] != ks[b]);
            }
        }
        fit
    }

    /// Refunds every expired offer, company by company, and records each for a
    /// later retry: the trade offers' companies first, then the options'. The
    /// companies of each map are taken in the order the map is walked, which
    /// is unspecified; each company once. A refund that the ledger cannot take
    /// (an unknown offerer, or a balance or holding beyond `u64::MAX`) is not
    /// applied, and the result is then `Unspendable`.
    pub fn alert_agents(
        &mut self,
        expired_trades: &HashMap<u64, Vec<FailedOffer<Trade>>>,
        expired_options: &HashMap<u64, Vec<FailedOffer<StockOption>>>,
    ) -> (r: Result<(), SimulationError>)
        requires
            old(self).wf(),
        ensures
            final(self).wf(),
            final(self).num_of_agents == old(self).num_of_agents,
            final(self).preferences == old(self).preferences,
            exists|k1: Seq<u64>, k2: Seq<u64>| #[trigger] alerted(
                (old(self).balances@, old(self).holdings@, old(self).try_offers@),
                (final(self).balances@, final(self).holdings@, final(self).try_offers@),
                k1, expired_trades@, k2, expired_options@, r),
    {
        let ghost st0 = (self.balances@, self.holdings@, self.try_offers@);
        let fit1 = self.refund_map(expired_trades);
        let ghost st1 = (self.balances@, self.holdings@, self.try_offers@);
        let fit2 = self.refund_map(expired_options);
        proof {
            let k1 = choose|keys: Seq<u64>| {
                &&& keys.no_duplicates()
                &&& keys.to_set() == expired_trades@.dom()
                &&& st1 == refund_companies(st0, keys, expired_trades@)
                &&& fit1 == refund_companies_fit(st0, keys, expired_trades@)
            };
            let k2 = choose|keys: Seq<u64>| {
                &&& keys.no_duplicates()
                &&& keys.to_set() == expired_options@.dom()
                &&& (self.balances@, self.holdings@, self.try_offers@) == refund_companies(st1, keys, expired_options@)
                &&& fit2 == refund_companies_fit(st1, keys, expired_options@)
            };
            let r: Result<(), SimulationError> = if fit1 && fit2 { Ok(()) } else { Err(SimulationError::Unspendable) };
            assert(alerted(st0, (self.balances@, self.holdings@, self.try_offers@), k1, expired_trades@, k2, expired_options@, r));
        }
        if fit1 && fit2 {
            Ok(())
        } else {
            Err(SimulationError::Unspendable)
        }
    }
}

/// The ledger and retry table after refunding, company by company in the order
/// of `keys`, the expired offers that `expired` lists for each.
pub open spec fn refund_companies<T: Payload>(
    st: (Seq<u64>, Map<u128, u64>, Seq<RetryOffer>),
    keys: Seq<u64>,
    expired: Map<u64, Vec<FailedOffer<T>>>,
) -> (Seq<u64>, Map<u128, u64>, Seq<RetryOffer>)
    decreases keys.len(),
{
    if keys.len() == 0 {
        st
    } else {
        let (b, h, t) = refund_companies(st, keys.drop_last(), expired);
        let c = keys.last();
        let fs = expired[c]@;
        let (b2, h2) = refunded_all(b, h, c, fs);
        (b2, h2, retried_all(t, c, fs))
    }
}

/// The ledger and retry table go from `st0` to `st2` by refunding the expired
/// trade offers company by company in the order of `k1`, then the expired
/// option offers in the order of `k2`, each listing its map's companies once;
/// the result is `Unspendable` exactly when some refund could not be applied.
pub open spec fn alerted(
    st0: (Seq<u64>, Map<u128, u64>, Seq<RetryOffer>),
    st2: (Seq<u64>, Map<u128, u64>, Seq<RetryOffer>),
    k1: Seq<u64>,
    trades: Map<u64, Vec<FailedOffer<Trade>>>,
    k2: Seq<u64>,
    options: Map<u64, Vec<FailedOffer<StockOption>>>,
    r: Result<(), SimulationError>,
) -> bool {
    let st1 = refund_companies(st0, k1, trades);
    &&& k1.no_duplicates()
    &&& k1.to_set() == trades.dom()
    &&& k2.no_duplicates()
    &&& k2.to_set() == options.dom()
    &&& st2 == refund_companies(st1, k2, options)
    &&& r == if refund_companies_fit(st0, k1, trades) && refund_companies_fit(st1, k2, options) {
        Ok::<(), SimulationError>(())
    } else {
        Err(SimulationError::Unspendable)
    }
}

/// Whether every refund that `refund_companies` makes could be applied.
pub open spec fn refund_companies_fit<T: Payload>(
    st: (Seq<u64>, Map<u128, u64>, Seq<RetryOffer>),
    keys: Seq<u64>,
    expired: Map<u64, Vec<FailedOffer<T>>>,
) -> bool
    decreases keys.len(),
{
    if keys.len() == 0 {
        true
    } else {
        let (b, h, t) = refund_companies(st, keys.drop_last(), expired);
        let c = keys.last();
        refund_companies_fit(st, keys.drop_last(), expired) && refunds_all_fit(b, h, c, expired[c]@)
    }
}

} // verus!

verus! {

/// An agent's shares, by company.
#[derive(Debug)]
pub struct AgentHoldings(pub HashMap<u64, u64>);

/// An agent's preference timeline.
#[derive(Debug)]
pub struct AgentPreferences(pub Timeline);

/// The persisted record of one agent.
#[derive(Debug)]
pub struct Agent {
    pub id: u64,
    pub balance: u64,
    pub holding: AgentHoldings,
    pub preferences: AgentPreferences,
}

/// The holdings of agent `a`, keyed by pair key.
pub open spec fn agent_map(a: Agent, id: u64) -> Map<u128, u64> {
    Map::new(
        |k: u128| agent_of(k) == id && a.holding.0@.contains_key(company_of(k)),
        |k: u128| a.holding.0@[company_of(k)],
    )
}

/// The holdings of a list of agent records; a later record of the same agent
/// and company wins.
pub open spec fn loaded_holdings(s: Seq<Agent>) -> Map<u128, u64>
    decreases s.len(),
{
    if s.len() == 0 {
        Map::empty()
    } else {
        loaded_holdings(s.drop_last()).union_prefer_right(agent_map(s.last(), (s.len() - 1) as u64))
    }
}

/// The holdings of a list of records belong to agents `0 .. s.len()`.
pub proof fn lemma_loaded_keys(s: Seq<Agent>)
    ensures
        keys_within(loaded_holdings(s), s.len()),
    decreases s.len(),
{
    if s.len() > 0 {
        lemma_loaded_keys(s.drop_last());
    }
}

/// The holdings of agent `i` of `h`, keyed by company.
pub open spec fn holdings_of(h: Map<u128, u64>, i: u64) -> Map<u64, u64> {
    Map::new(|c: u64| h.contains_key(key_of(i, c)), |c: u64| h[key_of(i, c)])
}

impl Timeline {
    /// An empty timeline.
    pub fn new() -> (r: Self)
        ensures
            r.data@ == Seq::<(u64, TradeAction)>::empty(),
            r.target_index == 0,
    {
        Timeline { data: Vec::new(), target_index: 0 }
    }

    /// A copy of the timeline.
    pub fn duplicate(&self) -> (r: Self)
        ensures
            r.data@ == self.data@,
            r.target_index == self.target_index,
    {
        let mut data: Vec<(u64, TradeAction)> = Vec::new();
        let mut i: usize = 0;
        while i < self.data.len()
            invariant
                i <= self.data@.len(),
                data@ == self.data@.take(i as int),
            decreases self.data.len() - i,
        {
            proof { assert(self.data@.take(i + 1) =~= self.data@.take(i as int).push(self.data@[i as int])); }
            data.push(self.data[i]);
            i += 1;
        }
        proof { assert(self.data@.take(self.data@.len() as int) =~= self.data@); }
        Timeline { data, target_index: self.target_index }
    }
}

impl Agents {
    /// The agents of the given records: the record at position `i` becomes
    /// agent `i`, with its balance, holdings and timeline.
    pub fn load(agents: &[Agent]) -> (r: Self)
        requires
            agents@.len() <= u64::MAX,
        ensures
            r.wf(),
            r.num_of_agents == agents@.len(),
            r.balances@ == agents@.map_values(|a: Agent| a.balance),
            r.holdings@ == loaded_holdings(agents@),
            forall|i: int| 0 <= i < agents@.len() ==> #[trigger] r.preferences.0@[i].data@ == agents@[i].preferences.0.data@
                && r.preferences.0@[i].target_index == agents@[i].preferences.0.target_index,
            r.try_offers@ == Seq::<RetryOffer>::empty(),
    {
        let mut balances: Vec<u64> = Vec::new();
        let mut holdings = Holdings::new();
        let mut preferences: Vec<Timeline> = Vec::new();
        let mut i: usize = 0;
        proof {
            assert forall|k: u128| #[trigger] agent_of(k) == agent_of(k) implies key_of(agent_of(k), company_of(k)) == k by {
                lemma_pair_key_bijection(0, 0, k);
            }
        }
        while i < agents.len()
            invariant
                i <= agents@.len(),
                balances@ == agents@.take(i as int).map_values(|a: Agent| a.balance),
                holdings@ == loaded_holdings(agents@.take(i as int)),
                preferences@.len() == i,
                forall|j: int| 0 <= j < i ==> #[trigger] preferences@[j].data@ == agents@[j].preferences.0.data@
                    && preferences@[j].target_index == agents@[j].preferences.0.target_index,
            decreases agents.len() - i,
        {
            let agent = &agents[i];
            let id = i as u64;
            balances.push(agent.balance);
            let ghost base = holdings@;
            let ghost ks = spec_keys_iter(&agent.holding.0).remaining();
            for company_id in it: agent.holding.0.keys()
                invariant
                    it.seq() == ks,
                    id == i as u64,
                    i < agents@.len(),
                    agent == &agents@[i as int],
                    base == loaded_holdings(agents@.take(i as int)),
                    balances@ == agents@.take(i + 1).map_values(|a: Agent| a.balance),
                    preferences@.len() == i,
                    forall|j: int| 0 <= j < i ==> #[trigger] preferences@[j].data@ == agents@[j].preferences.0.data@,
                    forall|k: u128| #![trigger holdings@.contains_key(k)]
                        holdings@.contains_key(k) <==> (base.contains_key(k) || (agent_of(k) == (i as u64)
                            && agent.holding.0@.contains_key(company_of(k))
                            && it.seq().take(it.index() as int).contains(&company_of(k)))),
                    forall|k: u128| #![trigger holdings@[k]] holdings@.contains_key(k) ==> holdings@[k] == if agent_of(k) == (i as u64)
                        && agent.holding.0@.contains_key(company_of(k))
                        && it.seq().take(it.index() as int).contains(&company_of(k)) {
                        agent.holding.0@[company_of(k)]
                    } else {
                        base[k]
                    },
            {
                let ghost j = it.index();
                let ghost pre = holdings@;
                proof {
                    assert(it.seq().take(j + 1) =~= it.seq().take(j).push(company_id));
                    lemma_pair_key_bijection(id, *company_id, 0);
                }
                if let Some(v) = agent.holding.0.get(company_id) {
                    holdings.insert(id, *company_id, *v);
                }
                proof {
                    let seen = it.seq().take(j);
                    let seen2 = it.seq().take(j + 1);
                    let c0 = *company_id;
                    let k0 = key_of((i as u64), c0);
                    assert forall|c: u64| #[trigger] seen2.contains(&c) <==> (seen.contains(&c) || c == c0) by {
                        if seen.contains(&c) {
                            let x = choose|x: int| 0 <= x < seen.len() && seen[x] == &c;
                            assert(seen2[x] == &c);
                        }
                        if seen2.contains(&c) && c != c0 {
                            let x = choose|x: int| 0 <= x < seen2.len() && seen2[x] == &c;
                            assert(seen[x] == &c);
                        }
                        if c == c0 {
                            assert(seen2[j] == &c);
                        }
                    }
                    assert forall|k: u128| #![trigger holdings@.contains_key(k)] holdings@.contains_key(k) <==> (base.contains_key(k) || (agent_of(k) == (i as u64)
                        && agent.holding.0@.contains_key(company_of(k)) && seen2.contains(&company_of(k)))) by {
                        lemma_pair_key_bijection(agent_of(k), company_of(k), k);
                    }
                    assert forall|k: u128| #![trigger holdings@[k]] holdings@.contains_key(k) implies holdings@[k] == if agent_of(k) == (i as u64)
                        && agent.holding.0@.contains_key(company_of(k)) && seen2.contains(&company_of(k)) {
                        agent.holding.0@[company_of(k)]
                    } else {
                        base[k]
                    } by {
                        lemma_pair_key_bijection(agent_of(k), company_of(k), k);
                    }
                }
            }
            proof {
                assert(ks.take(ks.len() as int) =~= ks);
                assert(ks.unref().to_set() == agent.holding.0@.dom());
                assert(agents@.take(i + 1).drop_last() =~= agents@.take(i as int));
                assert(agents@.take(i + 1).last() == agents@[i as int]);
                let a = agents@[i as int];
                assert forall|k: u128| #![trigger holdings@.contains_key(k)] holdings@.contains_key(k) <==> (base.contains_key(k) || (agent_of(k) == (i as u64)
                    && a.holding.0@.contains_key(company_of(k)) && ks.contains(&company_of(k)))) by {
                }
                assert forall|k: u128| #![trigger holdings@.contains_key(k)] holdings@.contains_key(k) <==> loaded_holdings(agents@.take(i + 1)).contains_key(k) by {
                    if agent_of(k) == (i as u64) && a.holding.0@.contains_key(company_of(k)) {
                        assert(ks.unref().to_set().contains(company_of(k)));
                        let x = choose|x: int| 0 <= x < ks.unref().len() && ks.unref()[x] == company_of(k);
                        assert(ks[x] == &company_of(k));
                    }
                }
            }
            preferences.push(agent.preferences.0.duplicate());
            proof {
                assert(agents@.take(i + 1).drop_last() =~= agents@.take(i as int));
                assert(agents@.take(i + 1).map_values(|a: Agent| a.balance) =~= agents@.take(i as int).map_values(|a: Agent| a.balance).push(agents@[i as int].balance));
                assert(holdings@ =~= loaded_holdings(agents@.take(i + 1)));
            }
            i += 1;
        }
        proof {
            assert(agents@.take(agents@.len() as int) =~= agents@);
            lemma_loaded_keys(agents@);
        }
        Agents {
            num_of_agents: agents.len() as u64,
            holdings,
            balances: Balances(balances),
            preferences: Preferences(preferences),
            try_offers: Vec::new(),
        }
    }
}

} // verus!

verus! {

impl Agents {
    /// The holdings of agent `agent_id`, by company.
    fn holdings_of_agent(&self, agent_id: u64) -> (r: HashMap<u64, u64>)
        ensures
            r@ == holdings_of(self.holdings@, agent_id),
    {
        let mut m: HashMap<u64, u64> = HashMap::new();
        let ghost ks = spec_keys_iter(&self.holdings.0).remaining();
        for key in it: self.holdings.0.keys()
            invariant
                it.seq() == ks,
                forall|c: u64| #![trigger m@.contains_key(c)] m@.contains_key(c) <==> (self.holdings@.contains_key(key_of(agent_id, c))
                    && it.seq().take(it.index() as int).contains(&key_of(agent_id, c))),
                forall|c: u64| #![trigger m@[c]] m@.contains_key(c) ==> m@[c] == self.holdings@[key_of(agent_id, c)],
        {
            let ghost j = it.index();
            let ghost pre = m@;
            proof {
                assert(it.seq().take(j + 1) =~= it.seq().take(j).push(key));
                lemma_pair_key_bijection(0, 0, *key);
            }
            if get_first(*key) == agent_id {
                if let Some(v) = self.holdings.0.get(key) {
                    m.insert(get_second(*key), *v);
                }
            }
            proof {
                let seen = it.seq().take(j);
                let seen2 = it.seq().take(j + 1);
                let k0 = *key;
                assert forall|k: u128| #[trigger] seen2.contains(&k) <==> (seen.contains(&k) || k == k0) by {
                    if seen.contains(&k) {
                        let x = choose|x: int| 0 <= x < seen.len() && seen[x] == &k;
                        assert(seen2[x] == &k);
                    }
                    if seen2.contains(&k) && k != k0 {
                        let x = choose|x: int| 0 <= x < seen2.len() && seen2[x] == &k;
                        assert(seen[x] == &k);
                    }
                    if k == k0 {
                        assert(seen2[j] == &k);
                    }
                }
                assert forall|c: u64| #![trigger m@.contains_key(c)] m@.contains_key(c) <==> (self.holdings@.contains_key(key_of(agent_id, c))
                    && seen2.contains(&key_of(agent_id, c))) by {
                    lemma_pair_key_bijection(agent_id, c, k0);
                }
                assert forall|c: u64| #![trigger m@[c]] m@.contains_key(c) implies m@[c] == self.holdings@[key_of(agent_id, c)] by {
                    lemma_pair_key_bijection(agent_id, c, k0);
                }
            }
        }
        proof {
            assert(ks.take(ks.len() as int) =~= ks);
            assert(ks.unref().to_set() == self.holdings@.dom());
            assert forall|c: u64| #![trigger m@.contains_key(c)] m@.contains_key(c) <==> holdings_of(self.holdings@, agent_id).contains_key(c) by {
                let k = key_of(agent_id, c);
                if self.holdings@.contains_key(k) {
                    assert(ks.unref().to_set().contains(k));
                    let x = choose|x: int| 0 <= x < ks.unref().len() && ks.unref()[x] == k;
                    assert(ks[x] == &k);
                }
            }
            assert(m@ =~= holdings_of(self.holdings@, agent_id));
        }
        m
    }

    /// The record of every agent, in id order.
    pub fn save(&self) -> (r: Result<Vec<Agent>, SimulationError>)
        requires
            self.wf(),
        ensures
            r matches Ok(v) && v@.len() == self.num_of_agents && forall|i: int| 0 <= i < v@.len() ==> {
                let a = #[trigger] v@[i];
                &&& a.id == i
                &&& a.balance == self.balances@[i]
                &&& a.holding.0@ == holdings_of(self.holdings@, i as u64)
                &&& a.preferences.0.data@ == self.preferences.0@[i].data@
                &&& a.preferences.0.target_index == self.preferences.0@[i].target_index
            },
    {
        let mut agents: Vec<Agent> = Vec::new();
        let mut i: u64 = 0;
        while i < self.num_of_agents
            invariant
                self.wf(),
                i <= self.num_of_agents,
                agents@.len() == i,
                forall|j: int| 0 <= j < i ==> {
                    let a = #[trigger] agents@[j];
                    &&& a.id == j
                    &&& a.balance == self.balances@[j]
                    &&& a.holding.0@ == holdings_of(self.holdings@, j as u64)
                    &&& a.preferences.0.data@ == self.preferences.0@[j].data@
                    &&& a.preferences.0.target_index == self.preferences.0@[j].target_index
                },
            decreases self.num_of_agents - i,
        {
            let n = self.balances.0.len();
            assert(i < n);
            agents.push(Agent {
                id: i,
                balance: self.balances.0[i as usize],
                holding: AgentHoldings(self.holdings_of_agent(i)),
                preferences: AgentPreferences(self.preferences.0[i as usize].duplicate()),
            });
            i += 1;
        }
        Ok(agents)
    }

    /// Whether an agent has the cash to buy `quantity` shares at `price`.
    pub fn can_buy(&self, agent_id: u64, price: u64, quantity: u64) -> (r: Result<bool, SimulationError>)
        ensures
            agent_id >= self.balances@.len() ==> r == Err::<bool, SimulationError>(SimulationError::AgentNotFound(agent_id)),
            agent_id < self.balances@.len() ==> r == Ok::<bool, SimulationError>(self.balances@[agent_id as int] >= price as int * quantity as int),
    {
        let bal = match self.balances.get(agent_id) {
            Ok(b) => b,
            Err(e) => {
                return Err(e);
            },
        };
        assert(price as int * quantity as int <= u64::MAX as int * u64::MAX as int) by (nonlinear_arith)
            requires price <= u64::MAX, quantity <= u64::MAX;
        Ok(bal as u128 >= price as u128 * quantity as u128)
    }

    /// Whether the pair under key `id` holds at least `quantity` shares.
    pub fn can_sell(&self, id: u128, quantity: u64) -> (r: bool)
        ensures
            r == (shares_at(self.holdings@, id) >= quantity),
    {
        self.holdings.get_u128(id) >= quantity
    }

    /// The agent ids.
    pub fn iter(&self) -> (r: std::ops::Range<u64>)
        ensures
            r.start == 0,
            r.end == self.num_of_agents,
    {
        0..self.num_of_agents
    }

    /// Adds `num_of_agents` agents with no cash and empty timelines; returns
    /// their ids.
    pub fn create_agents(&mut self, num_of_agents: u64) -> (r: Vec<u64>)
        requires
            old(self).wf(),
            old(self).num_of_agents + num_of_agents <= u64::MAX,
        ensures
            final(self).wf(),
            final(self).num_of_agents == old(self).num_of_agents + num_of_agents,
            final(self).balances@ == old(self).balances@ + Seq::new(num_of_agents as nat, |i: int| 0u64),
            final(self).holdings == old(self).holdings,
            final(self).try_offers == old(self).try_offers,
            r@ == Seq::new(num_of_agents as nat, |i: int| (old(self).num_of_agents + i) as u64),
    {
        let mut r: Vec<u64> = Vec::new();
        let mut k: u64 = 0;
        while k < num_of_agents
            invariant
                k <= num_of_agents,
                old(self).num_of_agents + num_of_agents <= u64::MAX,
                self.wf(),
                self.num_of_agents == old(self).num_of_agents + k,
                self.balances@ == old(self).balances@ + Seq::new(k as nat, |i: int| 0u64),
                self.holdings == old(self).holdings,
                self.try_offers == old(self).try_offers,
                r@ == Seq::new(k as nat, |i: int| (old(self).num_of_agents + i) as u64),
            decreases num_of_agents - k,
        {
            r.push(self.num_of_agents);
            self.balances.push(0);
            self.preferences.0.push(Timeline::new());
            self.num_of_agents = self.num_of_agents + 1;
            k += 1;
            proof {
                assert(self.balances@ =~= old(self).balances@ + Seq::new(k as nat, |i: int| 0u64));
                assert(r@ =~= Seq::new(k as nat, |i: int| (old(self).num_of_agents + i) as u64));
            }
        }
        r
    }

    /// Gives an agent cash and shares of a company; fails, changing nothing,
    /// on an unknown agent or an amount the ledger cannot hold.
    pub fn give_assets(&mut self, agent_id: u64, company_id: u64, balance_to_add: u64, holding_to_add: u64) -> (r: Result<(), SimulationError>)
        requires
            old(self).wf(),
        ensures
            final(self).wf(),
            final(self).num_of_agents == old(self).num_of_agents,
            final(self).try_offers == old(self).try_offers,
            ({
                let b = old(self).balances@;
                let h = old(self).holdings@;
                let key = key_of(agent_id, company_id);
                if agent_id >= b.len() {
                    r == Err::<(), SimulationError>(SimulationError::AgentNotFound(agent_id)) && final(self).balances@ == b && final(self).holdings@ == h
                } else if b[agent_id as int] + balance_to_add > u64::MAX || shares_at(h, key) + holding_to_add > u64::MAX {
                    r == Err::<(), SimulationError>(SimulationError::Unspendable) && final(self).balances@ == b && final(self).holdings@ == h
                } else {
                    &&& r is Ok
                    &&& final(self).balances@ == b.update(agent_id as int, (b[agent_id as int] + balance_to_add) as u64)
                    &&& final(self).holdings@ == h.insert(key, (shares_at(h, key) + holding_to_add) as u64)
                }
            }),
    {
        if agent_id >= self.balances.0.len() as u64 {
            return Err(SimulationError::AgentNotFound(agent_id));
        }
        let bal = self.balances.0[agent_id as usize];
        let held = self.holdings.get(agent_id, company_id);
        if balance_to_add > u64::MAX - bal || holding_to_add > u64::MAX - held {
            return Err(SimulationError::Unspendable);
        }
        let _ = self.balances.add(agent_id, balance_to_add as i128);
        self.holdings.push(agent_id, company_id, holding_to_add);
        Ok(())
    }
}

} // verus!

verus! {

/// A timeline after one more entry: appended while there is room, otherwise
/// written over the oldest entry, at `target`, which then moves on.
pub open spec fn timeline_push(data: Seq<(u64, TradeAction)>, target: int, item: (u64, TradeAction)) -> (Seq<(u64, TradeAction)>, int) {
    if data.len() < TIMELINE_SIZE_LIMIT {
        (data.push(item), target)
    } else {
        (data.update(target, item), (target + 1) % (TIMELINE_SIZE_LIMIT as int))
    }
}

/// A timeline after the entries of `items`, in order.
pub open spec fn timeline_extend(data: Seq<(u64, TradeAction)>, target: int, items: Seq<(u64, TradeAction)>) -> (Seq<(u64, TradeAction)>, int)
    decreases items.len(),
{
    if items.len() == 0 {
        (data, target)
    } else {
        let (d, t) = timeline_extend(data, target, items.drop_last());
        timeline_push(d, t, items.last())
    }
}

impl Timeline {
    /// At most `TIMELINE_SIZE_LIMIT` entries, and the overwrite position within it.
    pub open spec fn wf(&self) -> bool {
        self.data@.len() <= TIMELINE_SIZE_LIMIT && self.target_index < TIMELINE_SIZE_LIMIT
    }

    /// Records one entry.
    pub fn push(&mut self, item: (u64, TradeAction))
        requires
            old(self).wf(),
        ensures
            final(self).wf(),
            (final(self).data@, final(self).target_index as int) == timeline_push(old(self).data@, old(self).target_index as int, item),
    {
        if self.data.len() < TIMELINE_SIZE_LIMIT {
            self.data.push(item);
        } else {
            self.data.set(self.target_index, item);
            self.target_index = (self.target_index + 1) % TIMELINE_SIZE_LIMIT;
        }
    }

    /// Records the entries of `data`, in order.
    pub fn add(&mut self, data: &[(u64, TradeAction)])
        requires
            old(self).wf(),
        ensures
            final(self).wf(),
            (final(self).data@, final(self).target_index as int) == timeline_extend(old(self).data@, old(self).target_index as int, data@),
    {
        let mut i: usize = 0;
        while i < data.len()
            invariant
                i <= data@.len(),
                self.wf(),
                (self.data@, self.target_index as int) == timeline_extend(old(self).data@, old(self).target_index as int, data@.take(i as int)),
            decreases data.len() - i,
        {
            proof { assert(data@.take(i + 1).drop_last() =~= data@.take(i as int)); }
            self.push(data[i]);
            i += 1;
        }
        proof { assert(data@.take(data@.len() as int) =~= data@); }
    }

    /// Records `count` copies of one entry.
    fn repeat(&mut self, item: (u64, TradeAction), count: u64)
        requires
            old(self).wf(),
        ensures
            final(self).wf(),
            (final(self).data@, final(self).target_index as int) == timeline_extend(old(self).data@, old(self).target_index as int, Seq::new(count as nat, |i: int| item)),
    {
        let mut k: u64 = 0;
        while k < count
            invariant
                k <= count,
                self.wf(),
                (self.data@, self.target_index as int) == timeline_extend(old(self).data@, old(self).target_index as int, Seq::new(k as nat, |i: int| item)),
            decreases count - k,
        {
            proof { assert(Seq::new((k + 1) as nat, |i: int| item).drop_last() =~= Seq::new(k as nat, |i: int| item)); }
            self.push(item);
            k += 1;
        }
    }
}

impl Preferences {
    /// Every timeline is well formed.
    pub open spec fn wf(&self) -> bool {
        forall|i: int| 0 <= i < self.0@.len() ==> #[trigger] self.0@[i].wf()
    }

    /// Records `count` copies of one entry in an agent's timeline.
    fn record(&mut self, agent_id: u64, item: (u64, TradeAction), count: u64) -> (r: Result<(), SimulationError>)
        requires
            old(self).wf(),
        ensures
            final(self).wf(),
            final(self).0@.len() == old(self).0@.len(),
            agent_id >= old(self).0@.len() ==> r == Err::<(), SimulationError>(SimulationError::AgentNotFound(agent_id)) && final(self).0@ == old(self).0@,
            agent_id < old(self).0@.len() ==> r is Ok
                && (final(self).0@[agent_id as int].data@, final(self).0@[agent_id as int].target_index as int) == timeline_extend(
                    old(self).0@[agent_id as int].data@, old(self).0@[agent_id as int].target_index as int, Seq::new(count as nat, |i: int| item))
                && forall|j: int| 0 <= j < old(self).0@.len() && j != agent_id ==> #[trigger] final(self).0@[j] == old(self).0@[j],
    {
        if agent_id >= self.0.len() as u64 {
            return Err(SimulationError::AgentNotFound(agent_id));
        }
        let i = agent_id as usize;
        let mut timeline = Timeline::new();
        std::mem::swap(&mut timeline, &mut self.0[i]);
        assert(timeline.wf());
        timeline.repeat(item, count);
        std::mem::swap(&mut timeline, &mut self.0[i]);
        proof {
            assert forall|j: int| 0 <= j < self.0@.len() implies #[trigger] self.0@[j].wf() by {
                if j != i {
                    assert(self.0@[j] == old(self).0@[j]);
                }
            }
        }
        Ok(())
    }

    /// Records `preference` entries of interest in buying a company.
    pub fn add(&mut self, agent_id: u64, company_id: u64, preference: u64) -> (r: Result<(), SimulationError>)
        requires
            old(self).wf(),
        ensures
            final(self).wf(),
            final(self).0@.len() == old(self).0@.len(),
            agent_id >= old(self).0@.len() ==> r == Err::<(), SimulationError>(SimulationError::AgentNotFound(agent_id)) && final(self).0@ == old(self).0@,
            agent_id < old(self).0@.len() ==> r is Ok
                && (final(self).0@[agent_id as int].data@, final(self).0@[agent_id as int].target_index as int) == timeline_extend(
                    old(self).0@[agent_id as int].data@, old(self).0@[agent_id as int].target_index as int,
                    Seq::new(preference as nat, |i: int| (company_id, TradeAction::Buy)))
                && forall|j: int| 0 <= j < old(self).0@.len() && j != agent_id ==> #[trigger] final(self).0@[j] == old(self).0@[j],
    {
        self.record(agent_id, (company_id, TradeAction::Buy), preference)
    }

    /// Records `preference` entries of interest in selling a company.
    pub fn sub(&mut self, agent_id: u64, company_id: u64, preference: u64) -> (r: Result<(), SimulationError>)
        requires
            old(self).wf(),
        ensures
            final(self).wf(),
            final(self).0@.len() == old(self).0@.len(),
            agent_id >= old(self).0@.len() ==> r == Err::<(), SimulationError>(SimulationError::AgentNotFound(agent_id)) && final(self).0@ == old(self).0@,
            agent_id < old(self).0@.len() ==> r is Ok
                && (final(self).0@[agent_id as int].data@, final(self).0@[agent_id as int].target_index as int) == timeline_extend(
                    old(self).0@[agent_id as int].data@, old(self).0@[agent_id as int].target_index as int,
                    Seq::new(preference as nat, |i: int| (company_id, TradeAction::Sell)))
                && forall|j: int| 0 <= j < old(self).0@.len() && j != agent_id ==> #[trigger] final(self).0@[j] == old(self).0@[j],
    {
        self.record(agent_id, (company_id, TradeAction::Sell), preference)
    }
}

} // verus!

verus! {

/// The orders that the retry table `t` yields for draws `draws`: entry `i` is
/// retried when `draws[i]` holds and its agent can afford it (a buy) or holds
/// the shares (a sell); entries without a draw are not retried.
pub open spec fn retried_orders(t: Seq<RetryOffer>, draws: Seq<bool>, b: Seq<u64>, h: Map<u128, u64>, trade: Trade) -> Seq<TodoTransactions>
    decreases t.len(),
{
    if t.len() == 0 {
        Seq::empty()
    } else {
        let rest = retried_orders(t.drop_last(), draws, b, h, trade);
        let i = t.len() - 1;
        let e = t.last();
        let q = trade.number_of_shares;
        let can = match e.action {
            TradeAction::Buy => e.agent_id < b.len() && b[e.agent_id as int] >= e.price as int * q as int,
            TradeAction::Sell => shares_at(h, key_of(e.agent_id, e.company_id)) >= q,
        };
        if i < draws.len() && draws[i] && can {
            rest.push(TodoTransactions { agent_id: e.agent_id, company_id: e.company_id, strike_price: e.price, action: e.action, trade })
        } else {
            rest
        }
    }
}

impl Agents {
    /// Appends to `transactions` the retries of expired offers that the draws
    /// select and that their agents can still make.
    pub fn try_failed_offers(&self, retry_draws: &[bool], transactions: &mut Vec<TodoTransactions>, attempting_trade: &Trade) -> (r: Result<(), SimulationError>)
        ensures
            r is Ok,
            final(transactions)@ == old(transactions)@ + retried_orders(self.try_offers@, retry_draws@, self.balances@, self.holdings@, *attempting_trade),
    {
        let mut i: usize = 0;
        proof { assert(old(transactions)@ + retried_orders(self.try_offers@.take(0), retry_draws@, self.balances@, self.holdings@, *attempting_trade) =~= old(transactions)@); }
        while i < self.try_offers.len()
            invariant
                i <= self.try_offers@.len(),
                transactions@ == old(transactions)@ + retried_orders(self.try_offers@.take(i as int), retry_draws@, self.balances@, self.holdings@, *attempting_trade),
            decreases self.try_offers.len() - i,
        {
            proof { assert(self.try_offers@.take(i + 1).drop_last() =~= self.try_offers@.take(i as int)); }
            let e = self.try_offers[i];
            if i < retry_draws.len() && retry_draws[i] {
                let q = attempting_trade.number_of_shares;
                let can = match e.action {
                    TradeAction::Buy => match self.can_buy(e.agent_id, e.price, q) {
                        Ok(b) => b,
                        Err(_) => false,
                    },
                    TradeAction::Sell => self.can_sell(combine(e.agent_id, e.company_id), q),
                };
                if can {
                    transactions.push(TodoTransactions {
                        agent_id: e.agent_id,
                        company_id: e.company_id,
                        strike_price: e.price,
                        action: e.action,
                        trade: *attempting_trade,
                    });
                }
            }
            proof {
                assert(transactions@ =~= old(transactions)@ + retried_orders(self.try_offers@.take(i + 1), retry_draws@, self.balances@, self.holdings@, *attempting_trade));
            }
            i += 1;
        }
        proof { assert(self.try_offers@.take(self.try_offers@.len() as int) =~= self.try_offers@); }
        Ok(())
    }

    /// Records, for each company `c` in order, `preferences[c]` entries of
    /// interest in buying it in an agent's timeline.
    pub fn set_preferences_for_all_companies(&mut self, preferences: &[u64], agent_id: u64) -> (r: Result<(), SimulationError>)
        requires
            old(self).wf(),
            old(self).preferences.wf(),
            preferences@.len() <= u64::MAX,
        ensures
            final(self).wf(),
            final(self).preferences.wf(),
            final(self).num_of_agents == old(self).num_of_agents,
            final(self).balances == old(self).balances,
            final(self).holdings == old(self).holdings,
            final(self).try_offers == old(self).try_offers,
            agent_id >= old(self).num_of_agents ==> r == Err::<(), SimulationError>(SimulationError::AgentNotFound(agent_id)),
            agent_id < old(self).num_of_agents ==> r is Ok,
    {
        if agent_id >= self.preferences.0.len() as u64 {
            return Err(SimulationError::AgentNotFound(agent_id));
        }
        let mut c: usize = 0;
        while c < preferences.len()
            invariant
                c <= preferences@.len(),
                preferences@.len() <= u64::MAX,
                agent_id < self.preferences.0@.len(),
                self.wf(),
                self.preferences.wf(),
                self.num_of_agents == old(self).num_of_agents,
                self.balances == old(self).balances,
                self.holdings == old(self).holdings,
                self.try_offers == old(self).try_offers,
            decreases preferences.len() - c,
        {
            let _ = self.preferences.add(agent_id, c as u64, preferences[c]);
            c += 1;
        }
        Ok(())
    }

    /// Adds agents with the given balances and empty timelines. Fails with
    /// `NoData`, changing nothing, unless there is one balance per new agent.
    pub fn introduce_new_agents(&mut self, new_balances: &Vec<u64>, num_of_agents_to_introduce: u64) -> (r: Result<(), SimulationError>)
        requires
            old(self).wf(),
            old(self).num_of_agents + num_of_agents_to_introduce <= u64::MAX,
        ensures
            final(self).wf(),
            final(self).holdings == old(self).holdings,
            final(self).try_offers == old(self).try_offers,
            new_balances@.len() != num_of_agents_to_introduce ==> r == Err::<(), SimulationError>(SimulationError::NoData)
                && final(self).num_of_agents == old(self).num_of_agents && final(self).balances@ == old(self).balances@,
            new_balances@.len() == num_of_agents_to_introduce ==> r is Ok
                && final(self).num_of_agents == old(self).num_of_agents + num_of_agents_to_introduce
                && final(self).balances@ == old(self).balances@ + new_balances@,
    {
        if new_balances.len() as u64 != num_of_agents_to_introduce {
            return Err(SimulationError::NoData);
        }
        let mut i: usize = 0;
        while i < new_balances.len()
            invariant
                i <= new_balances@.len(),
                new_balances@.len() == num_of_agents_to_introduce,
                old(self).num_of_agents + num_of_agents_to_introduce <= u64::MAX,
                self.wf(),
                self.num_of_agents == old(self).num_of_agents + i,
                self.balances@ == old(self).balances@ + new_balances@.take(i as int),
                self.holdings == old(self).holdings,
                self.try_offers == old(self).try_offers,
            decreases new_balances.len() - i,
        {
            proof { assert(new_balances@.take(i + 1) =~= new_balances@.take(i as int).push(new_balances@[i as int])); }
            self.balances.push(new_balances[i]);
            self.preferences.0.push(Timeline::new());
            self.num_of_agents = self.num_of_agents + 1;
            proof { assert(self.balances@ =~= old(self).balances@ + new_balances@.take(i + 1)); }
            i += 1;
        }
        proof { assert(new_balances@.take(new_balances@.len() as int) =~= new_balances@); }
        Ok(())
    }
}

} // verus!

verus! {

/// The map of company to shares given by a list of pairs; a later pair of the
/// same company wins.
pub open spec fn pairs_map(s: Seq<(u64, u64)>) -> Map<u64, u64>
    decreases s.len(),
{
    if s.len() == 0 {
        Map::empty()
    } else {
        pairs_map(s.drop_last()).insert(s.last().0, s.last().1)
    }
}

impl Agent {
    /// A record with the given cash, (company, shares) holdings and
    /// preference timeline.
    pub fn new(id: u64, balance: u64, holding: &[(u64, u64)], preferences: &[(u64, TradeAction)]) -> (r: Self)
        ensures
            r.id == id,
            r.balance == balance,
            r.holding.0@ == pairs_map(holding@),
            r.preferences.0.data@ == preferences@,
            r.preferences.0.target_index == 0,
    {
        let mut m: HashMap<u64, u64> = HashMap::new();
        let mut i: usize = 0;
        while i < holding.len()
            invariant
                i <= holding@.len(),
                m@ == pairs_map(holding@.take(i as int)),
            decreases holding.len() - i,
        {
            proof { assert(holding@.take(i + 1).drop_last() =~= holding@.take(i as int)); }
            m.insert(holding[i].0, holding[i].1);
            i += 1;
        }
        proof { assert(holding@.take(holding@.len() as int) =~= holding@); }
        let mut data: Vec<(u64, TradeAction)> = Vec::new();
        let mut j: usize = 0;
        while j < preferences.len()
            invariant
                j <= preferences@.len(),
                data@ == preferences@.take(j as int),
            decreases preferences.len() - j,
        {
            proof { assert(preferences@.take(j + 1) =~= preferences@.take(j as int).push(preferences@[j as int])); }
            data.push(preferences[j]);
            j += 1;
        }
        proof { assert(preferences@.take(preferences@.len() as int) =~= preferences@); }
        Agent {
            id,
            balance,
            holding: AgentHoldings(m),
            preferences: AgentPreferences(Timeline { data, target_index: 0 }),
        }
    }
}

} // verus!

verus! {

/// Entry `draw` (modulo the length) of a timeline, or `NoData` when it is empty.
pub open spec fn timeline_pick(data: Seq<(u64, TradeAction)>, draw: u64) -> Result<(u64, TradeAction), SimulationError> {
    if data.len() == 0 {
        Err(SimulationError::NoData)
    } else {
        Ok(data[(draw as int) % (data.len() as int)])
    }
}

impl Timeline {
    /// The entry that the random number `draw` selects.
    pub fn get_rng(&self, draw: u64) -> (r: Result<(u64, TradeAction), SimulationError>)
        ensures
            r == timeline_pick(self.data@, draw),
    {
        if self.data.len() == 0 {
            return Err(SimulationError::NoData);
        }
        Ok(self.data[(draw % self.data.len() as u64) as usize])
    }

    /// An entry among the `bias_size` most recent, selected by `draw`: the
    /// `draw % bias_size`-th of them counted from the oldest of the window.
    /// With a window as large as the timeline it is `get_rng`; an empty window
    /// of a non-empty timeline, or a window that does not fit the overwrite
    /// position, gives `NoData`.
    pub fn recency_bias(&self, bias_size: usize, draw: u64) -> (r: Result<(u64, TradeAction), SimulationError>)
        ensures
            bias_size >= self.data@.len() ==> r == timeline_pick(self.data@, draw),
            bias_size < self.data@.len() ==> ({
                let t = self.target_index as int;
                let len = self.data@.len() as int;
                if bias_size == 0 {
                    r == Err::<(u64, TradeAction), SimulationError>(SimulationError::NoData)
                } else {
                    let index = (draw as int) % (bias_size as int);
                    if bias_size < t {
                        if index + (t - bias_size) < len {
                            r == Ok::<(u64, TradeAction), SimulationError>(self.data@[index + (t - bias_size)])
                        } else {
                            r == Err::<(u64, TradeAction), SimulationError>(SimulationError::NoData)
                        }
                    } else if index < t {
                        r == Ok::<(u64, TradeAction), SimulationError>(self.data@[index])
                    } else if 0 <= len - (index - t) - 1 {
                        r == Ok::<(u64, TradeAction), SimulationError>(self.data@[len - (index - t) - 1])
                    } else {
                        r == Err::<(u64, TradeAction), SimulationError>(SimulationError::NoData)
                    }
                }
            }),
    {
        let len = self.data.len();
        if bias_size >= len {
            return self.get_rng(draw);
        }
        if bias_size == 0 {
            return Err(SimulationError::NoData);
        }
        let index = (draw % bias_size as u64) as usize;
        let t = self.target_index;
        if bias_size < t {
            let i = index + (t - bias_size);
            if i < len {
                return Ok(self.data[i]);
            }
            return Err(SimulationError::NoData);
        }
        if index < t {
            return Ok(self.data[index]);
        }
        if index - t < len {
            return Ok(self.data[len - (index - t) - 1]);
        }
        Err(SimulationError::NoData)
    }
}

impl Preferences {
    /// The entry of an agent's timeline that the random number `draw` selects.
    pub fn get_preferred_random(&self, agent_id: u64, draw: u64) -> (r: Result<(u64, TradeAction), SimulationError>)
        ensures
            agent_id >= self.0@.len() ==> r == Err::<(u64, TradeAction), SimulationError>(SimulationError::AgentNotFound(agent_id)),
            agent_id < self.0@.len() ==> r == timeline_pick(self.0@[agent_id as int].data@, draw),
    {
        if agent_id >= self.0.len() as u64 {
            return Err(SimulationError::AgentNotFound(agent_id));
        }
        self.0[agent_id as usize].get_rng(draw)
    }
}

} // verus!

verus! {

/// An expired offer's escrow goes back in full to its offerer: the cash of a
/// buy offer, price times quantity, and the shares of a sell offer, where the
/// balance or holding can take them.
pub proof fn lemma_expiry_refunds_escrow<T: Payload>(b: Seq<u64>, h: Map<u128, u64>, company_id: u64, f: FailedOffer<T>)
    ensures
        f.1 == TradeAction::Buy && f.0.offerer_id < b.len()
            && b[f.0.offerer_id as int] + f.0.strike_price * f.0.data.shares() <= u64::MAX ==> {
            let (b1, h1) = refunded(b, h, company_id, f);
            &&& b1[f.0.offerer_id as int] == b[f.0.offerer_id as int] + f.0.strike_price * f.0.data.shares()
            &&& h1 == h
        },
        f.1 == TradeAction::Sell && f.0.offerer_id < b.len()
            && shares_at(h, key_of(f.0.offerer_id, company_id)) + f.0.data.shares() <= u64::MAX ==> {
            let (b1, h1) = refunded(b, h, company_id, f);
            &&& shares_at(h1, key_of(f.0.offerer_id, company_id)) == shares_at(h, key_of(f.0.offerer_id, company_id)) + f.0.data.shares()
            &&& b1 == b
        },
{
}

} // verus!
