use crate::entities::agents::{add_shares_spec, key_of, keys_within, lemma_keys_within_put, lemma_keys_within_take, refunded, refunded_all, shares_at, take_shares_spec, Agents};
use crate::entities::companies::{added_bet, bet_index, lemma_bet_le_sum, lemma_sum_lots_added, lot_bet, lot_cost, lots_for_shares, sum_lots, Companies, Lots, MarketValue};
use crate::trade_house::{
    alive, appended, candidates, expiring, expiring_book, opposite, survivors, FailedOffer, Offer, Payload, Trade, TradeAction, TradeHouse,
};
use crate::transaction::{TodoTransactions, Transaction};
use crate::SimulationError;
use std::collections::HashMap;
use vstd::prelude::*;

verus! {

broadcast use vstd::std_specs::hash::group_hash_axioms;

/// How an order that passed its escrow check ended.
#[derive(Debug, Clone, Copy, PartialEq, Eq, Structural)]
pub enum ActionState {
    /// No counter-offer was in range: the order rests in the book.
    AddedToOffers,
    /// The whole order was filled.
    InstantlyResolved(Transaction),
    /// Part of the order was filled; the rest rests in the book at its limit.
    PartiallyResolved(Transaction),
    /// The order became a bet on the company's open issuance.
    AddedToLots,
}

/// A product of two `u64` values fits in a `u128`.
proof fn lemma_product_fits(a: u64, b: u64)
    ensures
        a as int * b as int <= u128::MAX,
{
    assert(a as int * b as int <= u64::MAX as int * u64::MAX as int) by (nonlinear_arith)
        requires a <= u64::MAX, b <= u64::MAX;
}

/// Cash that a buy of `q` shares at `p` escrows.
pub open spec fn cost(p: u64, q: u64) -> int {
    p as int * q as int
}

/// A ledger with `amount` added to the cash of `a`.
pub open spec fn credit(b: Seq<u64>, a: u64, amount: int) -> Seq<u64> {
    b.update(a as int, (b[a as int] + amount) as u64)
}

/// Whether `amount` can be added to the cash of `a`.
pub open spec fn credit_fits(b: Seq<u64>, a: u64, amount: int) -> bool {
    a < b.len() && 0 <= b[a as int] + amount <= u64::MAX
}

/// Whether an offer's price is no worse for the taker than the taker's own
/// limit: a sell offer at most `price` for a buyer, a buy offer at least
/// `price` for a seller.
pub open spec fn acceptable(o: Offer<Trade>, price: u64, taker: TradeAction) -> bool {
    match taker {
        TradeAction::Buy => o.strike_price <= price,
        TradeAction::Sell => o.strike_price >= price,
    }
}

/// `i` is the first offer of `opp` acceptable to the taker.
pub open spec fn is_first_acceptable(opp: Seq<Offer<Trade>>, i: int, price: u64, taker: TradeAction) -> bool {
    &&& 0 <= i < opp.len()
    &&& acceptable(opp[i], price, taker)
    &&& forall|j: int| 0 <= j < i ==> !acceptable(#[trigger] opp[j], price, taker)
}

/// No offer of `opp` is acceptable to the taker.
pub open spec fn none_acceptable(opp: Seq<Offer<Trade>>, price: u64, taker: TradeAction) -> bool {
    forall|j: int| 0 <= j < opp.len() ==> !acceptable(#[trigger] opp[j], price, taker)
}

/// The state that one order reads and writes: the ledger, the order's own side
/// and the opposite side of its company's book, and the company's price buffer.
pub struct MarketState {
    pub balances: Seq<u64>,
    pub holdings: Map<u128, u64>,
    pub own: Seq<Offer<Trade>>,
    pub opp: Seq<Offer<Trade>>,
    pub prices: Seq<u64>,
}

/// Whether the requester can escrow what the order needs: a buyer must be in
/// the ledger with the cash, a seller must hold the shares.
pub open spec fn escrow_check(pre: MarketState, t: TodoTransactions) -> Result<(), SimulationError> {
    match t.action {
        TradeAction::Buy => if t.agent_id >= pre.balances.len() {
            Err(SimulationError::AgentNotFound(t.agent_id))
        } else if cost(t.strike_price, t.trade.number_of_shares) > pre.balances[t.agent_id as int] {
            Err(SimulationError::Unspendable)
        } else {
            Ok(())
        },
        TradeAction::Sell => if t.trade.number_of_shares > shares_at(pre.holdings, key_of(t.agent_id, t.company_id)) {
            Err(SimulationError::Unspendable)
        } else {
            Ok(())
        },
    }
}

/// Cash after the escrow of an order: a buyer pays `price * quantity` in.
pub open spec fn escrowed_balances(b: Seq<u64>, t: TodoTransactions) -> Seq<u64> {
    match t.action {
        TradeAction::Buy => credit(b, t.agent_id, -cost(t.strike_price, t.trade.number_of_shares)),
        TradeAction::Sell => b,
    }
}

/// Shares after the escrow of an order: a seller hands the quantity in.
pub open spec fn escrowed_holdings(h: Map<u128, u64>, t: TodoTransactions) -> Map<u128, u64> {
    match t.action {
        TradeAction::Buy => h,
        TradeAction::Sell => take_shares_spec(h, key_of(t.agent_id, t.company_id), t.trade.number_of_shares as int),
    }
}

/// Quantity of a fill of order `t` against offer `o`.
pub open spec fn fill(t: TodoTransactions, o: Offer<Trade>) -> u64 {
    if t.trade.number_of_shares <= o.data.number_of_shares {
        t.trade.number_of_shares
    } else {
        o.data.number_of_shares
    }
}

/// The record of a fill of order `t` against offer `o`, at the offer's price.
pub open spec fn fill_transaction(t: TodoTransactions, o: Offer<Trade>) -> Transaction {
    match t.action {
        TradeAction::Buy => Transaction {
            buyer_id: t.agent_id,
            seller_id: o.offerer_id,
            company_id: t.company_id,
            number_of_shares: fill(t, o),
            strike_price: o.strike_price,
        },
        TradeAction::Sell => Transaction {
            buyer_id: o.offerer_id,
            seller_id: t.agent_id,
            company_id: t.company_id,
            number_of_shares: fill(t, o),
            strike_price: o.strike_price,
        },
    }
}

/// Cash after the fill: a buying requester pays its escrow in and gets back the
/// difference between its limit and the fill price on the filled shares; the
/// seller gets the fill price on the filled shares.
pub open spec fn settled_balances(b: Seq<u64>, t: TodoTransactions, o: Offer<Trade>) -> Seq<u64> {
    let x = o.strike_price as int;
    let f = fill(t, o) as int;
    match t.action {
        TradeAction::Buy => credit(
            credit(b, t.agent_id, -cost(t.strike_price, t.trade.number_of_shares) + (t.strike_price - x) * f),
            o.offerer_id,
            x * f,
        ),
        TradeAction::Sell => credit(b, t.agent_id, x * f),
    }
}

/// Shares after the fill: the buyer gets the filled shares; a selling
/// requester hands its whole quantity in.
pub open spec fn settled_holdings(h: Map<u128, u64>, t: TodoTransactions, o: Offer<Trade>) -> Map<u128, u64> {
    let f = fill(t, o) as int;
    match t.action {
        TradeAction::Buy => add_shares_spec(h, key_of(t.agent_id, t.company_id), f),
        TradeAction::Sell => add_shares_spec(
            take_shares_spec(h, key_of(t.agent_id, t.company_id), t.trade.number_of_shares as int),
            key_of(o.offerer_id, t.company_id),
            f,
        ),
    }
}

/// Whether the ledger can apply the fill: the counterparty is known and no
/// balance or holding would pass `u64::MAX`.
pub open spec fn settle_check(pre: MarketState, t: TodoTransactions, o: Offer<Trade>) -> Result<(), SimulationError> {
    let x = o.strike_price as int;
    let f = fill(t, o) as int;
    if o.offerer_id >= pre.balances.len() {
        Err(SimulationError::AgentNotFound(o.offerer_id))
    } else {
        match t.action {
            TradeAction::Buy => {
                let b1 = credit(pre.balances, t.agent_id, -cost(t.strike_price, t.trade.number_of_shares) + (t.strike_price - x) * f);
                if credit_fits(b1, o.offerer_id, x * f) && shares_at(pre.holdings, key_of(t.agent_id, t.company_id)) + f <= u64::MAX {
                    Ok(())
                } else {
                    Err(SimulationError::Unspendable)
                }
            },
            TradeAction::Sell => {
                let h1 = take_shares_spec(pre.holdings, key_of(t.agent_id, t.company_id), t.trade.number_of_shares as int);
                if credit_fits(pre.balances, t.agent_id, x * f) && shares_at(h1, key_of(o.offerer_id, t.company_id)) + f <= u64::MAX {
                    Ok(())
                } else {
                    Err(SimulationError::Unspendable)
                }
            },
        }
    }
}

/// The outcome of order `t` against the first acceptable offer, at index `i` of
/// the opposite side.
pub open spec fn settled(pre: MarketState, post: MarketState, t: TodoTransactions, i: int, r: Result<Result<ActionState, Vec<usize>>, SimulationError>) -> bool {
    let o = pre.opp[i];
    let q = t.trade.number_of_shares;
    let c = o.data.number_of_shares;
    match settle_check(pre, t, o) {
        Err(e) => r == Err::<Result<ActionState, Vec<usize>>, SimulationError>(e) && post == pre,
        Ok(_) => {
            &&& post.balances == settled_balances(pre.balances, t, o)
            &&& post.holdings == settled_holdings(pre.holdings, t, o)
            &&& if c > q {
                appended(post.opp, pre.opp.remove(i), o.offerer_id, o.strike_price, Trade { number_of_shares: (c - q) as u64 })
            } else {
                post.opp == pre.opp.remove(i)
            }
            &&& if q > c {
                appended(post.own, pre.own, t.agent_id, t.strike_price, Trade { number_of_shares: (q - c) as u64 })
            } else {
                post.own == pre.own
            }
            &&& post.prices == pre.prices.push(o.strike_price)
            &&& r == Ok::<Result<ActionState, Vec<usize>>, SimulationError>(Ok(
                if q <= c { ActionState::InstantlyResolved(fill_transaction(t, o)) } else { ActionState::PartiallyResolved(fill_transaction(t, o)) },
            ))
        },
    }
}

/// What one order does, from the state `pre` to the state `post`, with result
/// `r`, where `deviation` is how far from its limit a counter-offer may lie.
pub open spec fn trade_outcome(pre: MarketState, post: MarketState, t: TodoTransactions, deviation: u64, r: Result<Result<ActionState, Vec<usize>>, SimulationError>) -> bool {
    let cands = candidates(pre.opp, t.strike_price, deviation, opposite(t.action));
    match escrow_check(pre, t) {
        Err(e) => r == Err::<Result<ActionState, Vec<usize>>, SimulationError>(e) && post == pre,
        Ok(_) => if cands.len() == 0 {
            &&& r == Ok::<Result<ActionState, Vec<usize>>, SimulationError>(Ok(ActionState::AddedToOffers))
            &&& post.balances == escrowed_balances(pre.balances, t)
            &&& post.holdings == escrowed_holdings(pre.holdings, t)
            &&& appended(post.own, pre.own, t.agent_id, t.strike_price, t.trade)
            &&& post.opp == pre.opp
            &&& post.prices == pre.prices
        } else if none_acceptable(pre.opp, t.strike_price, t.action) {
            &&& r matches Ok(Err(v)) && v@ == cands
            &&& post == pre
        } else {
            forall|i: int| is_first_acceptable(pre.opp, i, t.strike_price, t.action) ==> settled(pre, post, t, i, r)
        },
    }
}

/// The order book and the prices of the fills since each company's last tick.
#[derive(Debug)]
pub struct Market {
    pub recent_transactions: HashMap<u64, Vec<u64>>,
    pub house: TradeHouse,
}

impl Market {
    /// Fill prices of a company since its last tick.
    pub open spec fn prices(&self, company_id: u64) -> Seq<u64> {
        if self.recent_transactions@.contains_key(company_id) {
            self.recent_transactions@[company_id]@
        } else {
            Seq::empty()
        }
    }

    pub open spec fn wf(&self) -> bool {
        self.house.wf()
    }

    /// What one order reads and writes.
    pub open spec fn state(&self, agents: &Agents, t: TodoTransactions) -> MarketState {
        MarketState {
            balances: agents.balances@,
            holdings: agents.holdings@,
            own: self.house.trade_offers.side(t.company_id, t.action),
            opp: self.house.trade_offers.side(t.company_id, opposite(t.action)),
            prices: self.prices(t.company_id),
        }
    }

    /// An empty market.
    pub fn new() -> (r: Self)
        ensures
            r.wf(),
            forall|c: u64, s: TradeAction| r.house.trade_offers.side(c, s) == Seq::<Offer<Trade>>::empty(),
            forall|c: u64| r.prices(c) == Seq::<u64>::empty(),
    {
        Market { recent_transactions: HashMap::new(), house: TradeHouse::new() }
    }

    /// Appends a fill price to a company's buffer.
    pub fn add_transaction(&mut self, company_id: u64, price: u64)
        ensures
            final(self).house == old(self).house,
            final(self).prices(company_id) == old(self).prices(company_id).push(price),
            forall|c: u64| c != company_id ==> #[trigger] final(self).prices(c) == old(self).prices(c),
    {
        let mut tracker = match self.recent_transactions.remove(&company_id) {
            Some(v) => v,
            None => Vec::new(),
        };
        tracker.push(price);
        self.recent_transactions.insert(company_id, tracker);
    }

    /// Index of the first offer of `opp` acceptable to a taker on side `taker`
    /// with limit `price`.
    fn first_acceptable(opp: &Vec<Offer<Trade>>, price: u64, taker: TradeAction) -> (r: Option<usize>)
        ensures
            r matches Some(i) ==> is_first_acceptable(opp@, i as int, price, taker),
            r is None ==> none_acceptable(opp@, price, taker),
    {
        let mut i: usize = 0;
        while i < opp.len()
            invariant
                i <= opp@.len(),
                forall|j: int| 0 <= j < i ==> !acceptable(#[trigger] opp@[j], price, taker),
            decreases opp.len() - i,
        {
            let ok = match taker {
                TradeAction::Buy => opp[i].strike_price <= price,
                TradeAction::Sell => opp[i].strike_price >= price,
            };
            if ok {
                return Some(i);
            }
            i += 1;
        }
        None
    }

    /// Fills order `t`, whose escrow check passed, against the offer at index
    /// `i` of the opposite side, whose price is no worse than the order's
    /// limit; fails, changing nothing, when the ledger cannot apply the fill.
    pub fn convert_trade_offer_and_todo_transaction_to_transaction(&mut self, t: &TodoTransactions, agents: &mut Agents, i: usize) -> (r: Result<Result<ActionState, Vec<usize>>, SimulationError>)
        requires
            old(self).wf(),
            old(agents).wf(),
            escrow_check(old(self).state(old(agents), *t), *t) is Ok,
            i < old(self).state(old(agents), *t).opp.len(),
            acceptable(old(self).state(old(agents), *t).opp[i as int], t.strike_price, t.action),
        ensures
            final(self).wf(),
            final(agents).wf(),
            final(agents).num_of_agents == old(agents).num_of_agents,
            final(agents).preferences == old(agents).preferences,
            final(agents).try_offers == old(agents).try_offers,
            settled(old(self).state(old(agents), *t), final(self).state(final(agents), *t), *t, i as int, r),
            forall|c: u64, s: TradeAction| c != t.company_id ==> #[trigger] final(self).house.trade_offers.side(c, s) == old(self).house.trade_offers.side(c, s),
            forall|c: u64, s: TradeAction| #[trigger] final(self).house.option_offers.side(c, s) == old(self).house.option_offers.side(c, s),
            forall|c: u64| c != t.company_id ==> #[trigger] final(self).prices(c) == old(self).prices(c),
    {
        let ghost pre = self.state(agents, *t);
        let a = t.agent_id;
        let c = t.company_id;
        let p = t.strike_price;
        let q = t.trade.number_of_shares;
        let opp_side = t.action.complement();
        let held: u64 = agents.holdings.get(a, c);
        proof { lemma_product_fits(p, q); }
        let total: u128 = p as u128 * q as u128;
        let o = match self.house.get_trade_offers(c) {
            Some(offers) => match opp_side {
                TradeAction::Buy => offers.buyer_offers[i],
                TradeAction::Sell => offers.seller_offers[i],
            },
            None => {
                assert(false);
                return Err(SimulationError::NoData);
            },
        };
        let s = o.offerer_id;
        let x = o.strike_price;
        let cq = o.data.number_of_shares;
        let f = if q <= cq { q } else { cq };
        if s >= agents.balances.0.len() as u64 {
            return Err(SimulationError::AgentNotFound(s));
        }
        proof { lemma_product_fits(x, f); }
        let xf: u128 = x as u128 * f as u128;
        match t.action {
            TradeAction::Buy => {
                assert(x <= p);
                assert((p - x) as int * f as int <= p as int * q as int) by (nonlinear_arith)
                    requires x <= p, f <= q;
                let back: u128 = (p - x) as u128 * f as u128;
                assert(x as int * f as int <= p as int * q as int) by (nonlinear_arith)
                    requires x <= p, f <= q;
                let paid: u128 = total - back;
                let bal: u64 = agents.balances.0[a as usize];
                let new_a: u64 = (bal as u128 - paid) as u64;
                let bal_s: u64 = if s == a { new_a } else { agents.balances.0[s as usize] };
                if bal_s as u128 + xf > u64::MAX as u128 || held as u128 + f as u128 > u64::MAX as u128 {
                    return Err(SimulationError::Unspendable);
                }
                let _ = agents.balances.add(a, -(paid as i128));
                let _ = agents.balances.add(s, xf as i128);
                proof { lemma_keys_within_put(agents.holdings@, agents.num_of_agents as nat, a, c, (held + f) as u64); }
                agents.holdings.push(a, c, f);
            },
            TradeAction::Sell => {
                if a >= agents.balances.0.len() as u64 {
                    return Err(SimulationError::Unspendable);
                }
                let bal: u64 = agents.balances.0[a as usize];
                let held_s: u64 = if s == a { held - q } else { agents.holdings.get(s, c) };
                if xf > (u64::MAX - bal) as u128 || held_s as u128 + f as u128 > u64::MAX as u128 {
                    return Err(SimulationError::Unspendable);
                }
                proof { lemma_keys_within_take(agents.holdings@, agents.num_of_agents as nat, a, c, q as int); }
                let _ = agents.holdings.pop(a, c, q);
                proof { lemma_keys_within_put(agents.holdings@, agents.num_of_agents as nat, s, c, (held_s + f) as u64); }
                agents.holdings.push(s, c, f);
                let _ = agents.balances.add(a, xf as i128);
            },
        }
        let _ = self.house.remove_trade_offer(c, opp_side, i);
        if cq > q {
            self.house.add_trade_offer(s, c, x, Trade::new(cq - q), opp_side);
        }
        if q > cq {
            self.house.add_trade_offer(a, c, p, Trade::new(q - cq), t.action);
        }
        self.add_transaction(c, x);
        let tx = Transaction::new(
            match t.action { TradeAction::Buy => a, TradeAction::Sell => s },
            match t.action { TradeAction::Buy => s, TradeAction::Sell => a },
            c,
            f,
            x,
        );
        if q <= cq {
            Ok(Ok(ActionState::InstantlyResolved(tx)))
        } else {
            Ok(Ok(ActionState::PartiallyResolved(tx)))
        }
    }


    /// Executes one order against the company's book: escrows the requester's
    /// cash (buy) or shares (sell), then fills it against the first offer on the
    /// opposite side whose price is no worse than the order's limit, or rests it
    /// in the book when no offer lies within `acceptable_strike_price_deviation`.
    /// When offers lie within the deviation but all are worse than the limit,
    /// returns their indices and changes nothing.
    pub fn execute(&mut self, t: &TodoTransactions, agents: &mut Agents, acceptable_strike_price_deviation: u64) -> (r: Result<Result<ActionState, Vec<usize>>, SimulationError>)
        requires
            old(self).wf(),
            old(agents).wf(),
        ensures
            final(self).wf(),
            final(agents).wf(),
            final(agents).num_of_agents == old(agents).num_of_agents,
            final(agents).preferences == old(agents).preferences,
            final(agents).try_offers == old(agents).try_offers,
            trade_outcome(old(self).state(old(agents), *t), final(self).state(final(agents), *t), *t, acceptable_strike_price_deviation, r),
            forall|c: u64, s: TradeAction| c != t.company_id ==> #[trigger] final(self).house.trade_offers.side(c, s) == old(self).house.trade_offers.side(c, s),
            forall|c: u64, s: TradeAction| #[trigger] final(self).house.option_offers.side(c, s) == old(self).house.option_offers.side(c, s),
            forall|c: u64| c != t.company_id ==> #[trigger] final(self).prices(c) == old(self).prices(c),
    {
        let ghost pre = self.state(agents, *t);
        let a = t.agent_id;
        let c = t.company_id;
        let p = t.strike_price;
        let q = t.trade.number_of_shares;
        if let Err(e) = self.escrow_feasible(t, agents) {
            return Err(e);
        }
        proof { lemma_product_fits(p, q); }
        let total: u128 = p as u128 * q as u128;
        let opp_side = t.action.complement();
        let cands = match self.house.get_appropriate_trade_offer(c, p, acceptable_strike_price_deviation, opp_side) {
            Some(v) => v,
            None => Vec::new(),
        };
        if cands.len() == 0 {
            match t.action {
                TradeAction::Buy => {
                    let _ = agents.balances.add(a, -(total as i128));
                },
                TradeAction::Sell => {
                    proof { lemma_keys_within_take(agents.holdings@, agents.num_of_agents as nat, a, c, q as int); }
                    let _ = agents.holdings.pop(a, c, q);
                },
            }
            self.house.add_trade_offer(a, c, p, t.trade, t.action);
            return Ok(Ok(ActionState::AddedToOffers));
        }
        let found = match self.house.get_trade_offers(c) {
            Some(offers) => {
                let opp = match opp_side {
                    TradeAction::Buy => &offers.buyer_offers,
                    TradeAction::Sell => &offers.seller_offers,
                };
                match Self::first_acceptable(opp, p, t.action) {
                    Some(i) => Some((i, opp[i])),
                    None => None,
                }
            },
            None => None,
        };
        let (i, _) = match found {
            Some(x) => x,
            None => {
                return Ok(Err(cands));
            },
        };
        assert(is_first_acceptable(pre.opp, i as int, p, t.action));
        assert forall|j: int| is_first_acceptable(pre.opp, j, p, t.action) implies j == i by {
            if j < i {
                assert(!acceptable(pre.opp[j], p, t.action));
            } else if j > i {
                assert(!acceptable(pre.opp[i as int], p, t.action));
            }
        }
        self.convert_trade_offer_and_todo_transaction_to_transaction(t, agents, i)
    }
}

} // verus!

verus! {

/// A viable offer makes the candidate list non-empty.
proof fn lemma_viable_is_candidate(s: Seq<Offer<Trade>>, i: int, price: u64, deviation: u64, side: TradeAction)
    requires
        0 <= i < s.len(),
        crate::trade_house::viable(s[i], price, deviation, side),
    ensures
        candidates(s, price, deviation, side).len() > 0,
    decreases s.len(),
{
    if i < s.len() - 1 {
        lemma_viable_is_candidate(s.drop_last(), i, price, deviation, side);
    }
}

/// Where some offer is acceptable, a first one exists.
proof fn lemma_first_acceptable_exists(opp: Seq<Offer<Trade>>, i: int, price: u64, taker: TradeAction) -> (k: int)
    requires
        0 <= i < opp.len(),
        acceptable(opp[i], price, taker),
    ensures
        is_first_acceptable(opp, k, price, taker),
    decreases i,
{
    if forall|j: int| 0 <= j < i ==> !acceptable(#[trigger] opp[j], price, taker) {
        i
    } else {
        let j = choose|j: int| 0 <= j < i && acceptable(#[trigger] opp[j], price, taker);
        lemma_first_acceptable_exists(opp, j, price, taker)
    }
}

/// An order that meets an offer on the opposite side priced no worse than its
/// limit never comes to rest in the book: it is filled, or fails its escrow or
/// settlement check.
pub proof fn lemma_matching_never_rests(
    pre: MarketState,
    post: MarketState,
    t: TodoTransactions,
    deviation: u64,
    r: Result<Result<ActionState, Vec<usize>>, SimulationError>,
    i: int,
)
    requires
        trade_outcome(pre, post, t, deviation, r),
        0 <= i < pre.opp.len(),
        acceptable(pre.opp[i], t.strike_price, t.action),
    ensures
        r != Ok::<Result<ActionState, Vec<usize>>, SimulationError>(Ok(ActionState::AddedToOffers)),
        r is Ok ==> (r matches Ok(Ok(ActionState::InstantlyResolved(_))) || r matches Ok(Ok(ActionState::PartiallyResolved(_)))),
{
    lemma_viable_is_candidate(pre.opp, i, t.strike_price, deviation, opposite(t.action));
    let k = lemma_first_acceptable_exists(pre.opp, i, t.strike_price, t.action);
    assert(!none_acceptable(pre.opp, t.strike_price, t.action));
    if escrow_check(pre, t) is Ok {
        assert(settled(pre, post, t, k, r));
    }
}

} // verus!

verus! {

/// The fill that an order's result reports, if any.
pub open spec fn filled(r: Result<Result<ActionState, Vec<usize>>, SimulationError>) -> Option<Transaction> {
    match r {
        Ok(Ok(ActionState::InstantlyResolved(tx))) => Some(tx),
        Ok(Ok(ActionState::PartiallyResolved(tx))) => Some(tx),
        _ => None,
    }
}

/// Sum of all balances.
pub open spec fn total_cash(b: Seq<u64>) -> int
    decreases b.len(),
{
    if b.len() == 0 {
        0
    } else {
        total_cash(b.drop_last()) + b.last()
    }
}

/// Cash escrowed by a sequence of buy offers: price times quantity of each.
pub open spec fn escrowed_cash(s: Seq<Offer<Trade>>) -> int
    decreases s.len(),
{
    if s.len() == 0 {
        0
    } else {
        escrowed_cash(s.drop_last()) + cost(s.last().strike_price, s.last().data.number_of_shares)
    }
}

/// Shares escrowed by a sequence of sell offers.
pub open spec fn escrowed_shares(s: Seq<Offer<Trade>>) -> int
    decreases s.len(),
{
    if s.len() == 0 {
        0
    } else {
        escrowed_shares(s.drop_last()) + s.last().data.number_of_shares
    }
}

/// Cash escrowed by agent `a` in a sequence of buy offers.
pub open spec fn escrowed_cash_of(s: Seq<Offer<Trade>>, a: u64) -> int
    decreases s.len(),
{
    if s.len() == 0 {
        0
    } else {
        escrowed_cash_of(s.drop_last(), a) + if s.last().offerer_id == a {
            cost(s.last().strike_price, s.last().data.number_of_shares)
        } else {
            0
        }
    }
}

proof fn lemma_escrow_of_remove(s: Seq<Offer<Trade>>, i: int, a: u64)
    requires
        0 <= i < s.len(),
    ensures
        escrowed_cash_of(s.remove(i), a) == escrowed_cash_of(s, a) - if s[i].offerer_id == a {
            cost(s[i].strike_price, s[i].data.number_of_shares)
        } else {
            0
        },
    decreases s.len(),
{
    if i < s.len() - 1 {
        assert(s.remove(i).drop_last() =~= s.drop_last().remove(i));
        lemma_escrow_of_remove(s.drop_last(), i, a);
    } else {
        assert(s.remove(i) =~= s.drop_last());
    }
}

/// The buy side of the order's company, in a state seen from order `t`.
pub open spec fn buy_side(st: MarketState, t: TodoTransactions) -> Seq<Offer<Trade>> {
    match t.action {
        TradeAction::Buy => st.own,
        TradeAction::Sell => st.opp,
    }
}

/// The sell side of the order's company, in a state seen from order `t`.
pub open spec fn sell_side(st: MarketState, t: TodoTransactions) -> Seq<Offer<Trade>> {
    match t.action {
        TradeAction::Buy => st.opp,
        TradeAction::Sell => st.own,
    }
}

proof fn lemma_total_cash_update(b: Seq<u64>, i: int, v: u64)
    requires
        0 <= i < b.len(),
    ensures
        total_cash(b.update(i, v)) == total_cash(b) - b[i] + v,
    decreases b.len(),
{
    if i < b.len() - 1 {
        assert(b.update(i, v).drop_last() =~= b.drop_last().update(i, v));
        lemma_total_cash_update(b.drop_last(), i, v);
    } else {
        assert(b.update(i, v).drop_last() =~= b.drop_last());
    }
}

proof fn lemma_credit_total(b: Seq<u64>, a: u64, amount: int)
    requires
        credit_fits(b, a, amount),
    ensures
        total_cash(credit(b, a, amount)) == total_cash(b) + amount,
        credit(b, a, amount).len() == b.len(),
{
    lemma_total_cash_update(b, a as int, (b[a as int] + amount) as u64);
}

proof fn lemma_escrow_remove(s: Seq<Offer<Trade>>, i: int)
    requires
        0 <= i < s.len(),
    ensures
        escrowed_cash(s.remove(i)) == escrowed_cash(s) - cost(s[i].strike_price, s[i].data.number_of_shares),
        escrowed_shares(s.remove(i)) == escrowed_shares(s) - s[i].data.number_of_shares,
    decreases s.len(),
{
    if i < s.len() - 1 {
        assert(s.remove(i).drop_last() =~= s.drop_last().remove(i));
        lemma_escrow_remove(s.drop_last(), i);
    } else {
        assert(s.remove(i) =~= s.drop_last());
    }
}

proof fn lemma_escrow_appended(new: Seq<Offer<Trade>>, old: Seq<Offer<Trade>>, offerer_id: u64, price: u64, data: Trade)
    requires
        appended(new, old, offerer_id, price, data),
    ensures
        escrowed_cash(new) == escrowed_cash(old) + cost(price, data.number_of_shares),
        escrowed_shares(new) == escrowed_shares(old) + data.number_of_shares,
{
}

/// Cash is conserved by every order: the sum of all balances plus the cash
/// escrowed in the company's buy offers is the same before and after, and a
/// fill pays the seller exactly the fill quantity times the fill price.
pub proof fn lemma_trade_conserves_cash(
    pre: MarketState,
    post: MarketState,
    t: TodoTransactions,
    deviation: u64,
    r: Result<Result<ActionState, Vec<usize>>, SimulationError>,
)
    requires
        trade_outcome(pre, post, t, deviation, r),
    ensures
        total_cash(post.balances) + escrowed_cash(buy_side(post, t)) == total_cash(pre.balances) + escrowed_cash(buy_side(pre, t)),
        forall|tx: Transaction| filled(r) == Some(tx) && tx.buyer_id != tx.seller_id
            ==> post.balances[tx.seller_id as int] == pre.balances[tx.seller_id as int] + tx.number_of_shares * tx.strike_price,
        forall|tx: Transaction| filled(r) == Some(tx) && tx.buyer_id != tx.seller_id
            ==> post.balances[tx.buyer_id as int] + escrowed_cash_of(buy_side(post, t), tx.buyer_id)
                == pre.balances[tx.buyer_id as int] + escrowed_cash_of(buy_side(pre, t), tx.buyer_id) - tx.number_of_shares * tx.strike_price,
{
    let p = t.strike_price;
    let q = t.trade.number_of_shares;
    let cands = candidates(pre.opp, p, deviation, opposite(t.action));
    if escrow_check(pre, t) is Err {
        return;
    }
    if cands.len() == 0 {
        if t.action == TradeAction::Buy {
            lemma_credit_total(pre.balances, t.agent_id, -cost(p, q));
        }
        lemma_escrow_appended(post.own, pre.own, t.agent_id, p, t.trade);
        return;
    }
    if none_acceptable(pre.opp, p, t.action) {
        return;
    }
    let k0 = choose|k: int| 0 <= k < pre.opp.len() && !!acceptable(#[trigger] pre.opp[k], p, t.action);
    let i = lemma_first_acceptable_exists(pre.opp, k0, p, t.action);
    assert(settled(pre, post, t, i, r));
    lemma_settled_conserves_cash(pre, post, t, i, r);

}

/// A fill conserves cash: all balances plus the cash escrowed in the company's
/// buy offers, and the buyer pays and the seller gets the fill price per share.
pub proof fn lemma_settled_conserves_cash(
    pre: MarketState,
    post: MarketState,
    t: TodoTransactions,
    i: int,
    r: Result<Result<ActionState, Vec<usize>>, SimulationError>,
)
    requires
        escrow_check(pre, t) is Ok,
        0 <= i < pre.opp.len(),
        acceptable(pre.opp[i], t.strike_price, t.action),
        settled(pre, post, t, i, r),
    ensures
        total_cash(post.balances) + escrowed_cash(buy_side(post, t)) == total_cash(pre.balances) + escrowed_cash(buy_side(pre, t)),
        forall|tx: Transaction| filled(r) == Some(tx) && tx.buyer_id != tx.seller_id
            ==> post.balances[tx.seller_id as int] == pre.balances[tx.seller_id as int] + tx.number_of_shares * tx.strike_price,
        forall|tx: Transaction| filled(r) == Some(tx) && tx.buyer_id != tx.seller_id
            ==> post.balances[tx.buyer_id as int] + escrowed_cash_of(buy_side(post, t), tx.buyer_id)
                == pre.balances[tx.buyer_id as int] + escrowed_cash_of(buy_side(pre, t), tx.buyer_id) - tx.number_of_shares * tx.strike_price,
{
    let p = t.strike_price;
    let q = t.trade.number_of_shares;
    let o = pre.opp[i];
    if settle_check(pre, t, o) is Err {
        return;
    }
    let x = o.strike_price;
    let c = o.data.number_of_shares;
    let f = fill(t, o);
    lemma_escrow_remove(pre.opp, i);
    match t.action {
        TradeAction::Buy => {
            assert(x <= p);
            assert((p - x) * f <= p * q) by (nonlinear_arith)
                requires x <= p, f <= q;
            let d1 = -cost(p, q) + (p - x) * f;
            let b1 = credit(pre.balances, t.agent_id, d1);
            lemma_credit_total(pre.balances, t.agent_id, d1);
            lemma_credit_total(b1, o.offerer_id, x * f);
            if q > c {
                lemma_escrow_appended(post.own, pre.own, t.agent_id, p, Trade { number_of_shares: (q - c) as u64 });
                assert(p * q == p * (q - c) + p * c) by (nonlinear_arith);
            }
            assert(d1 + x * f + (if q > c { p * (q - c) } else { 0 }) == 0) by (nonlinear_arith)
                requires f == (if q <= c { q } else { c }), d1 == -(p * q) + (p - x) * f;
            assert(total_cash(post.balances) == total_cash(pre.balances) + d1 + x * f);
            if q > c {
                assert(escrowed_cash(post.own) == escrowed_cash(pre.own) + p * (q - c));
            } else {
                assert(post.own == pre.own);
            }
            assert(f * x == x * f) by (nonlinear_arith);
            if o.offerer_id != t.agent_id {
                assert(post.balances[o.offerer_id as int] == b1[o.offerer_id as int] + x * f);
                assert(post.balances[t.agent_id as int] == pre.balances[t.agent_id as int] + d1);
                if q > c {
                    assert(post.own.drop_last() == pre.own);
                    assert(escrowed_cash_of(post.own, t.agent_id) == escrowed_cash_of(pre.own, t.agent_id) + p * (q - c));
                }
            }
        },
        TradeAction::Sell => {
            lemma_credit_total(pre.balances, t.agent_id, x * f);
            if c > q {
                lemma_escrow_appended(post.opp, pre.opp.remove(i), o.offerer_id, x, Trade { number_of_shares: (c - q) as u64 });
            }
            assert(x * f - x * c + (if c > q { x * (c - q) } else { 0 }) == 0) by (nonlinear_arith)
                requires f == (if q <= c { q } else { c });
            assert(f * x == x * f) by (nonlinear_arith);
            if o.offerer_id != t.agent_id {
                lemma_escrow_of_remove(pre.opp, i, o.offerer_id);
                if c > q {
                    assert(post.opp.drop_last() == pre.opp.remove(i));
                    assert(escrowed_cash_of(post.opp, o.offerer_id) == escrowed_cash_of(pre.opp.remove(i), o.offerer_id) + x * (c - q));
                }
            }
        },
    }
}

} // verus!

verus! {

/// Shares of company `c` held by the agents `0 .. n`.
pub open spec fn company_shares(h: Map<u128, u64>, c: u64, n: nat) -> int
    decreases n,
{
    if n == 0 {
        0
    } else {
        company_shares(h, c, (n - 1) as nat) + shares_at(h, key_of((n - 1) as u64, c))
    }
}

proof fn lemma_company_shares_insert(h: Map<u128, u64>, c: u64, n: nat, a: u64, v: u64)
    requires
        a < n,
        n <= u64::MAX,
    ensures
        company_shares(h.insert(key_of(a, c), v), c, n) == company_shares(h, c, n) - shares_at(h, key_of(a, c)) + v,
    decreases n,
{
    let m = (n - 1) as u64;
    crate::entities::agents::lemma_pair_key_injective(m, c, a, c);
    if a < m {
        lemma_company_shares_insert(h, c, (n - 1) as nat, a, v);
    } else {
        assert(company_shares(h.insert(key_of(a, c), v), c, (n - 1) as nat) == company_shares(h, c, (n - 1) as nat)) by {
            lemma_company_shares_frame(h, c, (n - 1) as nat, a, v);
        }
    }
}

proof fn lemma_company_shares_frame(h: Map<u128, u64>, c: u64, n: nat, a: u64, v: u64)
    requires
        n <= a,
    ensures
        company_shares(h.insert(key_of(a, c), v), c, n) == company_shares(h, c, n),
    decreases n,
{
    if n > 0 {
        crate::entities::agents::lemma_pair_key_injective((n - 1) as u64, c, a, c);
        lemma_company_shares_frame(h, c, (n - 1) as nat, a, v);
    }
}

proof fn lemma_company_shares_add(h: Map<u128, u64>, c: u64, n: nat, a: u64, f: int)
    requires
        a < n,
        n <= u64::MAX,
        0 <= shares_at(h, key_of(a, c)) + f <= u64::MAX,
    ensures
        company_shares(add_shares_spec(h, key_of(a, c), f), c, n) == company_shares(h, c, n) + f,
{
    lemma_company_shares_insert(h, c, n, a, (shares_at(h, key_of(a, c)) + f) as u64);
}

proof fn lemma_company_shares_take(h: Map<u128, u64>, c: u64, n: nat, a: u64, q: int)
    requires
        keys_within(h, n),
        n <= u64::MAX,
        0 <= q <= shares_at(h, key_of(a, c)),
    ensures
        company_shares(take_shares_spec(h, key_of(a, c), q), c, n) == company_shares(h, c, n) - q,
{
    if h.contains_key(key_of(a, c)) {
        crate::entities::agents::lemma_pair_key_bijection(a, c, 0);
        lemma_company_shares_insert(h, c, n, a, (h[key_of(a, c)] - q) as u64);
    }
}

/// Shares are conserved by every order: the shares of the company held by all
/// agents plus those escrowed in its sell offers are the same before and after.
pub proof fn lemma_trade_conserves_shares(
    pre: MarketState,
    post: MarketState,
    t: TodoTransactions,
    deviation: u64,
    r: Result<Result<ActionState, Vec<usize>>, SimulationError>,
)
    requires
        trade_outcome(pre, post, t, deviation, r),
        pre.balances.len() <= u64::MAX,
        keys_within(pre.holdings, pre.balances.len()),
    ensures
        company_shares(post.holdings, t.company_id, pre.balances.len()) + escrowed_shares(sell_side(post, t))
            == company_shares(pre.holdings, t.company_id, pre.balances.len()) + escrowed_shares(sell_side(pre, t)),
{
    let n = pre.balances.len();
    let c = t.company_id;
    let a = t.agent_id;
    let p = t.strike_price;
    let q = t.trade.number_of_shares;
    let cands = candidates(pre.opp, p, deviation, opposite(t.action));
    if escrow_check(pre, t) is Err {
        return;
    }
    if cands.len() == 0 {
        if t.action == TradeAction::Sell {
            lemma_company_shares_take(pre.holdings, c, n, a, q as int);
        }
        lemma_escrow_appended(post.own, pre.own, a, p, t.trade);
        return;
    }
    if none_acceptable(pre.opp, p, t.action) {
        return;
    }
    let k0 = choose|k: int| 0 <= k < pre.opp.len() && !!acceptable(#[trigger] pre.opp[k], p, t.action);
    let i = lemma_first_acceptable_exists(pre.opp, k0, p, t.action);
    assert(settled(pre, post, t, i, r));
    lemma_settled_conserves_shares(pre, post, t, i, r);

}

/// A fill conserves the company's shares held by agents plus those escrowed
/// in its sell offers.
pub proof fn lemma_settled_conserves_shares(
    pre: MarketState,
    post: MarketState,
    t: TodoTransactions,
    i: int,
    r: Result<Result<ActionState, Vec<usize>>, SimulationError>,
)
    requires
        escrow_check(pre, t) is Ok,
        0 <= i < pre.opp.len(),
        acceptable(pre.opp[i], t.strike_price, t.action),
        settled(pre, post, t, i, r),
        pre.balances.len() <= u64::MAX,
        keys_within(pre.holdings, pre.balances.len()),
    ensures
        company_shares(post.holdings, t.company_id, pre.balances.len()) + escrowed_shares(sell_side(post, t))
            == company_shares(pre.holdings, t.company_id, pre.balances.len()) + escrowed_shares(sell_side(pre, t)),
{
    let n = pre.balances.len();
    let c = t.company_id;
    let a = t.agent_id;
    let p = t.strike_price;
    let q = t.trade.number_of_shares;
    let o = pre.opp[i];
    if settle_check(pre, t, o) is Err {
        return;
    }
    let cq = o.data.number_of_shares;
    let f = fill(t, o);
    lemma_escrow_remove(pre.opp, i);
    match t.action {
        TradeAction::Buy => {
            lemma_company_shares_add(pre.holdings, c, n, a, f as int);
            if cq > q {
                lemma_escrow_appended(post.opp, pre.opp.remove(i), o.offerer_id, o.strike_price, Trade { number_of_shares: (cq - q) as u64 });
            }
        },
        TradeAction::Sell => {
            let h1 = take_shares_spec(pre.holdings, key_of(a, c), q as int);
            lemma_company_shares_take(pre.holdings, c, n, a, q as int);
            lemma_company_shares_add(h1, c, n, o.offerer_id, f as int);
            if q > cq {
                lemma_escrow_appended(post.own, pre.own, a, p, Trade { number_of_shares: (q - cq) as u64 });
            }
        },
    }
}

} // verus!

verus! {

/// Largest value of a non-empty sequence.
pub open spec fn seq_max(s: Seq<u64>) -> u64
    decreases s.len(),
{
    if s.len() <= 1 {
        s[0]
    } else if s.last() > seq_max(s.drop_last()) {
        s.last()
    } else {
        seq_max(s.drop_last())
    }
}

/// Smallest value of a non-empty sequence.
pub open spec fn seq_min(s: Seq<u64>) -> u64
    decreases s.len(),
{
    if s.len() <= 1 {
        s[0]
    } else if s.last() < seq_min(s.drop_last()) {
        s.last()
    } else {
        seq_min(s.drop_last())
    }
}

/// Sum of a sequence.
pub open spec fn seq_sum(s: Seq<u64>) -> int
    decreases s.len(),
{
    if s.len() == 0 {
        0
    } else {
        seq_sum(s.drop_last()) + s.last()
    }
}

/// The bar after a tick over the fill prices `buf`: flat at the current price
/// when there were none; otherwise their extremes, their mean rounded down as
/// the current price, and the movement from the previous end to the last fill.
pub open spec fn ticked_bar(mv: MarketValue, buf: Seq<u64>) -> MarketValue {
    if buf.len() == 0 {
        MarketValue { highest_price: mv.current_price, lowest_price: mv.current_price, ..mv }
    } else {
        MarketValue {
            current_price: (seq_sum(buf) / buf.len() as int) as u64,
            highest_price: seq_max(buf),
            lowest_price: seq_min(buf),
            overall_movement_start: mv.overall_movement_end,
            overall_movement_end: buf.last(),
        }
    }
}

/// What `Market::trade` does: an order that fails its escrow check fails with
/// that error and changes nothing; otherwise a buy from a requester willing to
/// take newly issued shares, on a company with an open issuance, becomes a bet
/// of the lots nearest to its quantity, and any other order is executed against
/// the book as `trade_outcome` says.
pub open spec fn trade_post(
    m0: Market,
    m1: Market,
    a0: Agents,
    a1: Agents,
    c0: Companies,
    c1: Companies,
    willing: bool,
    t: TodoTransactions,
    deviation: u64,
    r: Result<Result<ActionState, Vec<usize>>, SimulationError>,
) -> bool {
    let c = t.company_id;
    let pre = m0.state(&a0, t);
    &&& a1.wf()
    &&& a1.num_of_agents == a0.num_of_agents
    &&& a1.balances@.len() == a0.balances@.len()
    &&& a1.preferences == a0.preferences
    &&& a1.try_offers == a0.try_offers
    &&& c1.num_of_companies == c0.num_of_companies
    &&& c1.market_values == c0.market_values
    &&& c1.lot_finalization_times == c0.lot_finalization_times
    &&& c1.lots@.len() == c0.lots@.len()
    &&& forall|i: int| 0 <= i < c0.lots@.len() && i != c ==> #[trigger] c1.lots@[i] == c0.lots@[i]
    &&& forall|c2: u64, s: TradeAction| #[trigger] m1.house.option_offers.side(c2, s) == m0.house.option_offers.side(c2, s)
    &&& match escrow_check(pre, t) {
        Err(e) => r == Err::<Result<ActionState, Vec<usize>>, SimulationError>(e) && m1 == m0 && a1 == a0 && c1 == c0,
        Ok(_) => if willing && t.action == TradeAction::Buy && c < c0.num_of_companies && !c0.lots@[c as int].blank() {
            let l = c0.lots@[c as int];
            let nl = c1.lots@[c as int];
            let (bets, b, res) = lot_bet(l, a0.balances@, t.agent_id, lots_for_shares(t.trade.number_of_shares, l.lot_size));
            &&& nl.bets@ == bets
            &&& nl.strike_price == l.strike_price && nl.number_of_lots == l.number_of_lots && nl.lot_size == l.lot_size
            &&& nl.total_num_of_bets == sum_lots(bets)
            &&& a1.balances@ == b
            &&& a1.holdings == a0.holdings
            &&& r == match res {
                Ok(_) => Ok::<Result<ActionState, Vec<usize>>, SimulationError>(Ok(ActionState::AddedToLots)),
                Err(e) => Err(e),
            }
            &&& forall|c2: u64, s: TradeAction| #[trigger] m1.house.trade_offers.side(c2, s) == m0.house.trade_offers.side(c2, s)
            &&& forall|c2: u64| #[trigger] m1.prices(c2) == m0.prices(c2)
        } else {
            &&& c1.lots == c0.lots
            &&& trade_outcome(pre, m1.state(&a1, t), t, deviation, r)
            &&& forall|c2: u64, s: TradeAction| c2 != c ==> #[trigger] m1.house.trade_offers.side(c2, s) == m0.house.trade_offers.side(c2, s)
            &&& forall|c2: u64| c2 != c ==> #[trigger] m1.prices(c2) == m0.prices(c2)
        },
    }
}

/// What `Market::concede` does: it fills order `t` against the offer at
/// `index` of the opposite side, at that offer's price.
pub open spec fn concede_post(
    m0: Market,
    m1: Market,
    a0: Agents,
    a1: Agents,
    t: TodoTransactions,
    index: usize,
    r: Result<Result<ActionState, Vec<usize>>, SimulationError>,
) -> bool {
    let pre = m0.state(&a0, t);
    let post = m1.state(&a1, t);
    &&& a1.num_of_agents == a0.num_of_agents
    &&& a1.balances@.len() == a0.balances@.len()
    &&& a1.preferences == a0.preferences
    &&& a1.try_offers == a0.try_offers
    &&& if index >= pre.opp.len() {
        r == Err::<Result<ActionState, Vec<usize>>, SimulationError>(SimulationError::NoData) && post == pre
    } else {
        let t2 = at_price_of(t, pre.opp[index as int]);
        match escrow_check(pre, t2) {
            Err(e) => r == Err::<Result<ActionState, Vec<usize>>, SimulationError>(e) && post == pre,
            Ok(_) => settled(pre, post, t2, index as int, r),
        }
    }
    &&& forall|c: u64, s: TradeAction| c != t.company_id ==> #[trigger] m1.house.trade_offers.side(c, s) == m0.house.trade_offers.side(c, s)
    &&& forall|c: u64, s: TradeAction| #[trigger] m1.house.option_offers.side(c, s) == m0.house.option_offers.side(c, s)
    &&& forall|c: u64| c != t.company_id ==> #[trigger] m1.prices(c) == m0.prices(c)
}

/// The candidate that a draw concedes to after order result `r1`: the
/// `draw.pick`-th (modulo their number) of the reported candidates, when the
/// order reported some and the draw concedes.
pub open spec fn concession(r1: Result<Result<ActionState, Vec<usize>>, SimulationError>, draw: TradeDraw) -> Option<usize> {
    match r1 {
        Ok(Err(cands)) => if draw.concede && cands@.len() > 0 {
            Some(cands@[(draw.pick as int) % (cands@.len() as int)])
        } else {
            None
        },
        _ => None,
    }
}

/// What `Market::trade_step` does with order `t` and its draw: `trade`, then,
/// where the draw concedes to a reported candidate, `concede`.
pub open spec fn step_post(
    m0: Market,
    m1: Market,
    a0: Agents,
    a1: Agents,
    c0: Companies,
    c1: Companies,
    t: TodoTransactions,
    draw: TradeDraw,
    deviation: u64,
    r: Result<Result<ActionState, Vec<usize>>, SimulationError>,
) -> bool {
    exists|m: Market, a: Agents, r1: Result<Result<ActionState, Vec<usize>>, SimulationError>| {
        &&& trade_post(m0, m, a0, a, c0, c1, draw.accept_lots, t, deviation, r1)
        &&& match concession(r1, draw) {
            Some(k) => concede_post(m, m1, a, a1, t, k, r),
            None => m1 == m && a1 == a && r == r1,
        }
    }
}

/// The draw of order `i` of a batch: `draws[i]`, or none of the options where
/// `draws` is shorter.
pub open spec fn draw_at(draws: Seq<TradeDraw>, i: int) -> TradeDraw {
    if 0 <= i < draws.len() {
        draws[i]
    } else {
        TradeDraw { accept_lots: false, concede: false, pick: 0 }
    }
}

/// `ms`, `as_`, `cs` and `rs` trace a batch from its first state to its last:
/// each order, in turn, is one `trade_step` with its draw.
pub open spec fn batch_trace(
    ms: Seq<Market>,
    as_: Seq<Agents>,
    cs: Seq<Companies>,
    rs: Seq<Result<Result<ActionState, Vec<usize>>, SimulationError>>,
    ts: Seq<TodoTransactions>,
    draws: Seq<TradeDraw>,
    deviation: u64,
) -> bool {
    &&& ms.len() == ts.len() + 1
    &&& as_.len() == ts.len() + 1
    &&& cs.len() == ts.len() + 1
    &&& rs.len() == ts.len()
    &&& forall|i: int| 0 <= i < ts.len() ==> step_post(ms[i], ms[i + 1], as_[i], as_[i + 1], cs[i], cs[i + 1], ts[i], draw_at(draws, i), deviation, #[trigger] rs[i])
}

/// What `Market::rand_do_trade` does: the batch goes from the first state to
/// the last through one `trade_step` per order.
pub open spec fn batch_post(
    m0: Market,
    m1: Market,
    a0: Agents,
    a1: Agents,
    c0: Companies,
    c1: Companies,
    ts: Seq<TodoTransactions>,
    draws: Seq<TradeDraw>,
    deviation: u64,
) -> bool {
    exists|ms: Seq<Market>, as_: Seq<Agents>, cs: Seq<Companies>, rs: Seq<Result<Result<ActionState, Vec<usize>>, SimulationError>>|
        #[trigger] batch_trace(ms, as_, cs, rs, ts, draws, deviation)
        && ms[0] == m0 && ms[ts.len() as int] == m1
        && as_[0] == a0 && as_[ts.len() as int] == a1
        && cs[0] == c0 && cs[ts.len() as int] == c1
}

/// The order `t` at the price of offer `o`.
pub open spec fn at_price_of(t: TodoTransactions, o: Offer<Trade>) -> TodoTransactions {
    TodoTransactions { strike_price: o.strike_price, ..t }
}

impl Market {
    /// Accepts, as a concession, the offer at `index` of the opposite side of
    /// the order's company at that offer's price, whatever the order's limit:
    /// the order is escrowed and filled at the offer's price. Fails with
    /// `NoData` if there is no such offer.
    pub fn concede(&mut self, t: &TodoTransactions, agents: &mut Agents, index: usize) -> (r: Result<Result<ActionState, Vec<usize>>, SimulationError>)
        requires
            old(self).wf(),
            old(agents).wf(),
        ensures
            final(self).wf(),
            final(agents).wf(),
            concede_post(*old(self), *final(self), *old(agents), *final(agents), *t, index, r),
    {
        let opp_side = t.action.complement();
        let price = match self.house.get_trade_offers(t.company_id) {
            Some(offers) => {
                let opp = match opp_side {
                    TradeAction::Buy => &offers.buyer_offers,
                    TradeAction::Sell => &offers.seller_offers,
                };
                if index >= opp.len() {
                    return Err(SimulationError::NoData);
                }
                opp[index].strike_price
            },
            None => {
                return Err(SimulationError::NoData);
            },
        };
        let t2 = TodoTransactions { strike_price: price, ..*t };
        if let Err(e) = self.escrow_feasible(&t2, agents) {
            return Err(e);
        }
        self.convert_trade_offer_and_todo_transaction_to_transaction(&t2, agents, index)
    }

    /// Whether the requester of `t` can escrow what it needs.
    fn escrow_feasible(&self, t: &TodoTransactions, agents: &Agents) -> (r: Result<(), SimulationError>)
        ensures
            r == escrow_check(self.state(agents, *t), *t),
    {
        let a = t.agent_id;
        let q = t.trade.number_of_shares;
        proof { lemma_product_fits(t.strike_price, q); }
        match t.action {
            TradeAction::Buy => {
                if a >= agents.balances.0.len() as u64 {
                    return Err(SimulationError::AgentNotFound(a));
                }
                if t.strike_price as u128 * q as u128 > agents.balances.0[a as usize] as u128 {
                    return Err(SimulationError::Unspendable);
                }
            },
            TradeAction::Sell => {
                if q > agents.holdings.get(a, t.company_id) {
                    return Err(SimulationError::Unspendable);
                }
            },
        }
        Ok(())
    }

    /// Places one order: a buy from a requester willing to take newly issued
    /// shares, on a company with an open issuance, becomes a bet of the lots
    /// nearest to its quantity (its cash escrowed at the issuance's price);
    /// any other order is executed against the book.
    pub fn trade(
        &mut self,
        willing_to_accept_company_shares_if_they_are_present: bool,
        todo_transaction: &TodoTransactions,
        agents: &mut Agents,
        companies: &mut Companies,
        acceptable_strike_price_deviation: u64,
    ) -> (r: Result<Result<ActionState, Vec<usize>>, SimulationError>)
        requires
            old(self).wf(),
            old(agents).wf(),
            old(companies).wf(),
        ensures
            final(self).wf(),
            final(agents).wf(),
            final(companies).wf(),
            trade_post(*old(self), *final(self), *old(agents), *final(agents), *old(companies), *final(companies),
                willing_to_accept_company_shares_if_they_are_present, *todo_transaction, acceptable_strike_price_deviation, r),
    {
        let t = todo_transaction;
        let c = t.company_id;
        if let Err(e) = self.escrow_feasible(t, agents) {
            return Err(e);
        }
        if willing_to_accept_company_shares_if_they_are_present && t.action == TradeAction::Buy && c < companies.num_of_companies {
            let n = companies.lots.len();
            assert(c < n);
            let i = c as usize;
            if !companies.lots[i].is_blank() {
                let mut lot = Lots::new(0, 0, 0);
                std::mem::swap(&mut lot, &mut companies.lots[i]);
                assert(lot.wf());
                let q = t.trade.number_of_shares;
                let size = lot.lot_size;
                proof {
                    vstd::arithmetic::div_mod::lemma_fundamental_div_mod(q as int, size as int);
                    if size >= 2 {
                        assert((q / size) * 2 <= q) by (nonlinear_arith)
                            requires size >= 2, q == size * (q / size) + q % size, q % size >= 0, q / size >= 0;
                    }
                }
                let lots = q / size + if q % size >= size - q % size { 1u64 } else { 0u64 };
                let res = lot.add_bet_and_update_agent(agents, t.agent_id, lots);
                std::mem::swap(&mut lot, &mut companies.lots[i]);
                proof {
                    assert forall|j: int| 0 <= j < companies.lots@.len() implies #[trigger] companies.lots@[j].wf() by {
                        if j != i {
                            assert(companies.lots@[j] == old(companies).lots@[j]);
                        }
                    }
                }
                return match res {
                    Ok(_) => Ok(Ok(ActionState::AddedToLots)),
                    Err(e) => Err(e),
                };
            }
        }
        self.execute(t, agents, acceptable_strike_price_deviation)
    }

    /// Closes a company's price bar over the fills since its last tick and
    /// empties its buffer.
    pub fn tick_individual_company(&mut self, company_id: u64, market_value: &mut MarketValue)
        requires
            old(self).wf(),
        ensures
            final(self).wf(),
            final(self).house == old(self).house,
            *final(market_value) == ticked_bar(*old(market_value), old(self).prices(company_id)),
            final(self).prices(company_id) == Seq::<u64>::empty(),
            forall|c: u64| c != company_id ==> #[trigger] final(self).prices(c) == old(self).prices(c),
    {
        let buf = match self.recent_transactions.remove(&company_id) {
            Some(v) => v,
            None => Vec::new(),
        };
        if buf.len() == 0 {
            market_value.highest_price = market_value.current_price;
            market_value.lowest_price = market_value.current_price;
            return;
        }
        let mut hi: u64 = buf[0];
        let mut lo: u64 = buf[0];
        let mut sum: u128 = buf[0] as u128;
        let mut i: usize = 1;
        proof {
            assert(buf@.take(1).drop_last() =~= Seq::<u64>::empty());
            assert(seq_sum(buf@.take(1).drop_last()) == 0);
            assert(buf@.take(1).last() == buf@[0]);
        }
        while i < buf.len()
            invariant
                1 <= i <= buf@.len(),
                hi == seq_max(buf@.take(i as int)),
                lo == seq_min(buf@.take(i as int)),
                sum == seq_sum(buf@.take(i as int)),
                sum <= i * u64::MAX,
                buf@.len() <= usize::MAX,
            decreases buf.len() - i,
        {
            proof {
                assert(buf@.take(i + 1).drop_last() =~= buf@.take(i as int));
                assert(i * u64::MAX + u64::MAX == (i + 1) * u64::MAX) by (nonlinear_arith);
                assert((i + 1) * u64::MAX <= usize::MAX as int * u64::MAX as int) by (nonlinear_arith)
                    requires i + 1 <= usize::MAX;
                assert(usize::MAX as int * u64::MAX as int <= u128::MAX) by (nonlinear_arith)
                    requires usize::MAX <= u64::MAX;
            }
            let x = buf[i];
            if x > hi {
                hi = x;
            }
            if x < lo {
                lo = x;
            }
            sum = sum + x as u128;
            i += 1;
        }
        proof {
            assert(buf@.take(buf@.len() as int) =~= buf@);
            let n = buf@.len() as int;
            let total = sum as int;
            assert(total / n <= u64::MAX) by (nonlinear_arith)
                requires total <= n * u64::MAX, n >= 1;
        }
        let avg = (sum / buf.len() as u128) as u64;
        market_value.highest_price = hi;
        market_value.lowest_price = lo;
        market_value.overall_movement_start = market_value.overall_movement_end;
        market_value.current_price = avg;
        market_value.overall_movement_end = buf[buf.len() - 1];
    }

    /// Ages the whole book by a tick; returns the expired trade offers and the
    /// expired option offers, each keyed by company.
    pub fn tick_failures(&mut self) -> (r: (HashMap<u64, Vec<crate::trade_house::FailedOffer<Trade>>>, HashMap<u64, Vec<crate::trade_house::FailedOffer<crate::trade_house::StockOption>>>))
        requires
            old(self).wf(),
        ensures
            final(self).wf(),
            forall|c: u64| #[trigger] final(self).prices(c) == old(self).prices(c),
            forall|c: u64, s: TradeAction| #[trigger] final(self).house.trade_offers.side(c, s) == crate::trade_house::survivors(old(self).house.trade_offers.side(c, s)),
            forall|c: u64| #[trigger] r.0@.contains_key(c) <==> crate::trade_house::expiring_book(
                old(self).house.trade_offers.side(c, TradeAction::Sell), old(self).house.trade_offers.side(c, TradeAction::Buy)).len() > 0,
            forall|c: u64| #[trigger] r.0@.contains_key(c) ==> r.0@[c]@ == crate::trade_house::expiring_book(
                old(self).house.trade_offers.side(c, TradeAction::Sell), old(self).house.trade_offers.side(c, TradeAction::Buy)),
            forall|c: u64| #[trigger] r.1@.contains_key(c) <==> crate::trade_house::expiring_book(
                old(self).house.option_offers.side(c, TradeAction::Sell), old(self).house.option_offers.side(c, TradeAction::Buy)).len() > 0,
            forall|c: u64| #[trigger] r.1@.contains_key(c) ==> r.1@[c]@ == crate::trade_house::expiring_book(
                old(self).house.option_offers.side(c, TradeAction::Sell), old(self).house.option_offers.side(c, TradeAction::Buy)),
    {
        self.house.tick()
    }
}

} // verus!

verus! {

/// The random choices for one order of a batch: whether its requester takes
/// newly issued shares, whether it concedes to a worse-priced candidate when no
/// candidate meets its limit, and which candidate (taken modulo their number).
#[derive(Debug, Clone, Copy, PartialEq, Eq, Structural)]
pub struct TradeDraw {
    pub accept_lots: bool,
    pub concede: bool,
    pub pick: u64,
}

impl Market {
    /// Places one order of a batch with its draw: the order is placed as
    /// `trade` does; when it reports candidates that are all worse than its
    /// limit and the draw concedes, the drawn candidate is taken as `concede`
    /// does.
    pub fn trade_step(
        &mut self,
        agents: &mut Agents,
        companies: &mut Companies,
        t: &TodoTransactions,
        draw: TradeDraw,
        deviation: u64,
    ) -> (r: Result<Result<ActionState, Vec<usize>>, SimulationError>)
        requires
            old(self).wf(),
            old(agents).wf(),
            old(companies).wf(),
        ensures
            final(self).wf(),
            final(agents).wf(),
            final(companies).wf(),
            step_post(*old(self), *final(self), *old(agents), *final(agents), *old(companies), *final(companies), *t, draw, deviation, r),
    {
        let r1 = self.trade(draw.accept_lots, t, agents, companies, deviation);
        let ghost m1 = *self;
        let ghost a1 = *agents;
        let ghost g1 = r1;
        let r = match r1 {
            Ok(Err(cands)) => {
                if draw.concede && cands.len() > 0 {
                    let k = (draw.pick % cands.len() as u64) as usize;
                    self.concede(t, agents, cands[k])
                } else {
                    Ok(Err(cands))
                }
            },
            other => other,
        };
        assert(trade_post(*old(self), m1, *old(agents), a1, *old(companies), *companies, draw.accept_lots, *t, deviation, g1));
        r
    }

    /// Places a batch of orders in turn, each with its draw (orders without a
    /// draw take none of the options), within `deviation` of their limits.
    /// Orders that fail are skipped.
    pub fn rand_do_trade(
        &mut self,
        agents: &mut Agents,
        companies: &mut Companies,
        transactions: &[TodoTransactions],
        draws: &[TradeDraw],
        deviation: u64,
    )
        requires
            old(self).wf(),
            old(agents).wf(),
            old(companies).wf(),
        ensures
            final(self).wf(),
            final(agents).wf(),
            final(companies).wf(),
            final(agents).num_of_agents == old(agents).num_of_agents,
            final(companies).num_of_companies == old(companies).num_of_companies,
            batch_post(*old(self), *final(self), *old(agents), *final(agents), *old(companies), *final(companies), transactions@, draws@, deviation),
            forall|c: u64| #[trigger] shares_in_play(*final(self), *final(agents), c) == shares_in_play(*old(self), *old(agents), c),
            forall|cs: Seq<u64>| cs.no_duplicates() && (forall|k: int| 0 <= k < transactions@.len() ==> cs.contains(#[trigger] transactions@[k].company_id))
                ==> #[trigger] cash_in_play(*final(self), *final(agents), *final(companies), cs) == cash_in_play(*old(self), *old(agents), *old(companies), cs),
    {
        let mut i: usize = 0;
        let ghost mut ms: Seq<Market> = seq![*self];
        let ghost mut as_: Seq<Agents> = seq![*agents];
        let ghost mut cs_: Seq<Companies> = seq![*companies];
        let ghost mut rs: Seq<Result<Result<ActionState, Vec<usize>>, SimulationError>> = Seq::empty();
        proof { assert(transactions@.take(0) =~= Seq::<TodoTransactions>::empty()); }
        while i < transactions.len()
            invariant
                i <= transactions@.len(),
                batch_trace(ms, as_, cs_, rs, transactions@.take(i as int), draws@, deviation),
                ms[0] == *old(self) && ms[i as int] == *self,
                as_[0] == *old(agents) && as_[i as int] == *agents,
                cs_[0] == *old(companies) && cs_[i as int] == *companies,
                self.wf(),
                agents.wf(),
                companies.wf(),
                agents.num_of_agents == old(agents).num_of_agents,
                companies.num_of_companies == old(companies).num_of_companies,
                forall|c: u64| #[trigger] shares_in_play(*self, *agents, c) == shares_in_play(*old(self), *old(agents), c),
                forall|cs: Seq<u64>| cs.no_duplicates() && (forall|k: int| 0 <= k < transactions@.len() ==> cs.contains(#[trigger] transactions@[k].company_id))
                    ==> #[trigger] cash_in_play(*self, *agents, *companies, cs) == cash_in_play(*old(self), *old(agents), *old(companies), cs),
            decreases transactions.len() - i,
        {
            let t = &transactions[i];
            let draw = if i < draws.len() { draws[i] } else { TradeDraw { accept_lots: false, concede: false, pick: 0 } };
            let ghost m0 = *self;
            let ghost a0 = *agents;
            let ghost c0 = *companies;
            let r = self.trade_step(agents, companies, t, draw, deviation);
            proof {
                assert(draw == draw_at(draws@, i as int));
                let ts0 = transactions@.take(i as int);
                let ts1 = transactions@.take(i + 1);
                assert(ts1 =~= ts0.push(*t));
                let ms1 = ms.push(*self);
                let as1 = as_.push(*agents);
                let cs1 = cs_.push(*companies);
                let rs1 = rs.push(r);
                assert forall|k: int| 0 <= k < ts1.len() implies step_post(ms1[k], ms1[k + 1], as1[k], as1[k + 1], cs1[k], cs1[k + 1], ts1[k], draw_at(draws@, k), deviation, #[trigger] rs1[k]) by {
                    if k < i {
                        assert(rs1[k] == rs[k]);
                        assert(step_post(ms[k], ms[k + 1], as_[k], as_[k + 1], cs_[k], cs_[k + 1], ts0[k], draw_at(draws@, k), deviation, rs[k]));
                    }
                }
                ms = ms1;
                as_ = as1;
                cs_ = cs1;
                rs = rs1;
                assert(transactions@[i as int] == *t);
                assert forall|c: u64| #[trigger] shares_in_play(*self, *agents, c) == shares_in_play(*old(self), *old(agents), c) by {
                    lemma_step_conserves(m0, *self, a0, *agents, c0, *companies, *t, draw, deviation, r, Seq::empty());
                }
                assert forall|cs: Seq<u64>| cs.no_duplicates() && (forall|k: int| 0 <= k < transactions@.len() ==> cs.contains(#[trigger] transactions@[k].company_id))
                    implies #[trigger] cash_in_play(*self, *agents, *companies, cs) == cash_in_play(*old(self), *old(agents), *old(companies), cs) by {
                    assert(cs.contains(transactions@[i as int].company_id));
                    assert(cash_in_play(m0, a0, c0, cs) == cash_in_play(*old(self), *old(agents), *old(companies), cs));
                    lemma_step_conserves(m0, *self, a0, *agents, c0, *companies, *t, draw, deviation, r, cs);
                }
            }
            i += 1;
        }
        proof {
            assert(transactions@.take(transactions@.len() as int) =~= transactions@);
            assert(batch_trace(ms, as_, cs_, rs, transactions@, draws@, deviation));
        }
    }
}

} // verus!

verus! {

/// Shares carried by the expired sell offers of `fs`.
pub open spec fn expired_sell_shares(fs: Seq<FailedOffer<Trade>>) -> int
    decreases fs.len(),
{
    if fs.len() == 0 {
        0
    } else {
        expired_sell_shares(fs.drop_last()) + if fs.last().1 == TradeAction::Sell {
            fs.last().0.data.number_of_shares as int
        } else {
            0
        }
    }
}

proof fn lemma_escrowed_shares_prepend(x: Offer<Trade>, r: Seq<Offer<Trade>>)
    ensures
        escrowed_shares(seq![x] + r) == x.data.number_of_shares + escrowed_shares(r),
    decreases r.len(),
{
    if r.len() > 0 {
        assert((seq![x] + r).drop_last() =~= seq![x] + r.drop_last());
        assert((seq![x] + r).last() == r.last());
        lemma_escrowed_shares_prepend(x, r.drop_last());
    } else {
        assert(seq![x] + r =~= seq![x]);
        assert(seq![x].drop_last() =~= Seq::<Offer<Trade>>::empty());
        assert(escrowed_shares(Seq::<Offer<Trade>>::empty()) == 0);
    }
}

/// A tick splits the escrowed shares of the sell side between the survivors and
/// the expired offers; the expired buy offers carry no sell shares.
proof fn lemma_tick_splits_shares(s: Seq<Offer<Trade>>, side: TradeAction)
    requires
        alive(s),
    ensures
        side == TradeAction::Sell ==> escrowed_shares(s) == escrowed_shares(survivors(s)) + expired_sell_shares(expiring(s, side)),
        side == TradeAction::Buy ==> expired_sell_shares(expiring(s, side)) == 0,
    decreases s.len(),
{
    if s.len() == 0 {
        assert(escrowed_shares(s) == 0);
        assert(escrowed_shares(survivors(s)) == 0);
        assert(expired_sell_shares(expiring(s, side)) == 0);
    } else {
        let rest = s.skip(1);
        assert(s =~= seq![s[0]] + rest);
        lemma_escrowed_shares_prepend(s[0], rest);
        assert(escrowed_shares(s) == s[0].data.number_of_shares + escrowed_shares(rest));
        assert forall|i: int| 0 <= i < rest.len() implies #[trigger] rest[i].lifetime >= 1 by {
            assert(rest[i] == s[i + 1]);
        }
        lemma_tick_splits_shares(rest, side);
        assert(s[0].lifetime >= 1);
        if s[0].lifetime > 1 {
            lemma_escrowed_shares_prepend(crate::trade_house::aged_offer(s[0]), survivors(rest));
            assert(survivors(s) == seq![crate::trade_house::aged_offer(s[0])] + survivors(rest));
            assert(expiring(s, side) == expiring(rest, side));
        } else {
            let e = expiring(rest, side);
            let g = FailedOffer(crate::trade_house::aged_offer(s[0]), side);
            assert(e.push(g).drop_last() =~= e);
            assert(expiring(s, side) == e.push(g));
            assert(survivors(s) == survivors(rest));
            assert(expired_sell_shares(e.push(g)) == expired_sell_shares(e) + if side == TradeAction::Sell {
                s[0].data.number_of_shares as int
            } else {
                0
            });
        }
    }
}

proof fn lemma_company_shares_bound(h: Map<u128, u64>, c: u64, n: nat, a: u64)
    requires
        a < n,
    ensures
        shares_at(h, key_of(a, c)) <= company_shares(h, c, n),
        company_shares(h, c, n) >= 0,
    decreases n,
{
    if a < n - 1 {
        lemma_company_shares_bound(h, c, (n - 1) as nat, a);
    } else {
        lemma_company_shares_nonneg(h, c, (n - 1) as nat);
    }
}

proof fn lemma_company_shares_nonneg(h: Map<u128, u64>, c: u64, n: nat)
    ensures
        company_shares(h, c, n) >= 0,
    decreases n,
{
    if n > 0 {
        lemma_company_shares_nonneg(h, c, (n - 1) as nat);
    }
}

/// Refunding expired offers adds the shares of the expired sell offers to the
/// company's holdings, when their offerers are known agents and nothing would
/// pass `u64::MAX`.
proof fn lemma_refunds_restore_shares(b: Seq<u64>, h: Map<u128, u64>, c: u64, n: nat, fs: Seq<FailedOffer<Trade>>)
    requires
        n <= u64::MAX,
        n <= b.len(),
        forall|i: int| 0 <= i < fs.len() && fs[i].1 == TradeAction::Sell ==> #[trigger] fs[i].0.offerer_id < n,
        company_shares(h, c, n) + expired_sell_shares(fs) <= u64::MAX,
    ensures
        company_shares(refunded_all(b, h, c, fs).1, c, n) == company_shares(h, c, n) + expired_sell_shares(fs),
    decreases fs.len(),
{
    if fs.len() > 0 {
        let init = fs.drop_last();
        assert forall|i: int| 0 <= i < init.len() && init[i].1 == TradeAction::Sell implies #[trigger] init[i].0.offerer_id < n by {
            assert(init[i] == fs[i]);
        }
        lemma_expired_sell_shares_nonneg(fs.drop_last());
        let f = fs.last();
        lemma_refunds_restore_shares(b, h, c, n, init);
        lemma_refunded_all_len(b, h, c, init);
        let (b1, h1) = refunded_all(b, h, c, init);
        if f.1 == TradeAction::Sell {
            assert(fs[fs.len() - 1] == f);
            lemma_company_shares_bound(h1, c, n, f.0.offerer_id);
            lemma_company_shares_add(h1, c, n, f.0.offerer_id, f.0.data.number_of_shares as int);
        }
    }
}

proof fn lemma_refunded_all_len(b: Seq<u64>, h: Map<u128, u64>, c: u64, fs: Seq<FailedOffer<Trade>>)
    ensures
        refunded_all(b, h, c, fs).0.len() == b.len(),
    decreases fs.len(),
{
    if fs.len() > 0 {
        lemma_refunded_all_len(b, h, c, fs.drop_last());
    }
}

proof fn lemma_expired_sell_shares_nonneg(fs: Seq<FailedOffer<Trade>>)
    ensures
        expired_sell_shares(fs) >= 0,
    decreases fs.len(),
{
    if fs.len() > 0 {
        lemma_expired_sell_shares_nonneg(fs.drop_last());
    }
}

proof fn lemma_expired_sell_shares_append(a: Seq<FailedOffer<Trade>>, b: Seq<FailedOffer<Trade>>)
    ensures
        expired_sell_shares(a + b) == expired_sell_shares(a) + expired_sell_shares(b),
    decreases b.len(),
{
    if b.len() > 0 {
        assert((a + b).drop_last() =~= a + b.drop_last());
        lemma_expired_sell_shares_append(a, b.drop_last());
    } else {
        assert(a + b =~= a);
    }
}

/// Shares are conserved by an expiry tick followed by the refunds of what
/// expired: the company's shares held by agents plus those escrowed in its sell
/// offers are the same before and after, when every sell offerer is a known
/// agent and the total fits in a `u64`.
pub proof fn lemma_expiry_conserves_shares(
    b: Seq<u64>,
    h: Map<u128, u64>,
    c: u64,
    n: nat,
    sells: Seq<Offer<Trade>>,
    buys: Seq<Offer<Trade>>,
)
    requires
        alive(sells),
        alive(buys),
        n <= u64::MAX,
        n <= b.len(),
        forall|i: int| 0 <= i < sells.len() ==> #[trigger] sells[i].offerer_id < n,
        company_shares(h, c, n) + escrowed_shares(sells) <= u64::MAX,
    ensures
        company_shares(refunded_all(b, h, c, expiring_book(sells, buys)).1, c, n) + escrowed_shares(survivors(sells))
            == company_shares(h, c, n) + escrowed_shares(sells),
{
    lemma_tick_splits_shares(sells, TradeAction::Sell);
    lemma_tick_splits_shares(buys, TradeAction::Buy);
    let fs = expiring_book(sells, buys);
    lemma_expired_sell_shares_append(expiring(sells, TradeAction::Sell), expiring(buys, TradeAction::Buy));
    lemma_escrowed_shares_nonneg(survivors(sells));
    assert forall|i: int| 0 <= i < fs.len() && fs[i].1 == TradeAction::Sell implies #[trigger] fs[i].0.offerer_id < n by {
        lemma_expiring_from(sells, TradeAction::Sell, buys, i);
    }
    lemma_refunds_restore_shares(b, h, c, n, fs);
}

proof fn lemma_escrowed_shares_nonneg(s: Seq<Offer<Trade>>)
    ensures
        escrowed_shares(s) >= 0,
    decreases s.len(),
{
    if s.len() > 0 {
        lemma_escrowed_shares_nonneg(s.drop_last());
    }
}

/// Every sell entry of the expiry list comes from an offer of `sells`.
proof fn lemma_expiring_from(sells: Seq<Offer<Trade>>, side: TradeAction, buys: Seq<Offer<Trade>>, i: int)
    requires
        side == TradeAction::Sell,
        0 <= i < expiring_book(sells, buys).len(),
        expiring_book(sells, buys)[i].1 == TradeAction::Sell,
    ensures
        exists|j: int| 0 <= j < sells.len() && #[trigger] sells[j].offerer_id == expiring_book(sells, buys)[i].0.offerer_id,
{
    let a = expiring(sells, TradeAction::Sell);
    if i < a.len() {
        lemma_expiring_origin(sells, TradeAction::Sell, i);
    } else {
        lemma_expiring_side(buys, TradeAction::Buy, i - a.len());
        assert(expiring_book(sells, buys)[i] == expiring(buys, TradeAction::Buy)[i - a.len()]);
    }
}

proof fn lemma_expiring_side(s: Seq<Offer<Trade>>, side: TradeAction, k: int)
    requires
        0 <= k < expiring(s, side).len(),
    ensures
        expiring(s, side)[k].1 == side,
    decreases s.len(),
{
    if s.len() > 0 {
        let rest = expiring(s.skip(1), side);
        if k < rest.len() {
            lemma_expiring_side(s.skip(1), side, k);
            if s[0].lifetime == 1 {
                assert(expiring(s, side)[k] == rest[k]);
            }
        }
    }
}

proof fn lemma_expiring_origin(s: Seq<Offer<Trade>>, side: TradeAction, k: int)
    requires
        0 <= k < expiring(s, side).len(),
    ensures
        exists|j: int| 0 <= j < s.len() && #[trigger] s[j].offerer_id == expiring(s, side)[k].0.offerer_id,
    decreases s.len(),
{
    if s.len() > 0 {
        let rest = expiring(s.skip(1), side);
        if k < rest.len() {
            lemma_expiring_origin(s.skip(1), side, k);
            let j = choose|j: int| 0 <= j < s.skip(1).len() && #[trigger] s.skip(1)[j].offerer_id == rest[k].0.offerer_id;
            assert(s[j + 1] == s.skip(1)[j]);
            if s[0].lifetime == 1 {
                assert(expiring(s, side)[k] == rest[k]);
            }
        } else {
            assert(s[0].offerer_id == expiring(s, side)[k].0.offerer_id);
        }
    }
}

} // verus!

verus! {

/// Cash carried by the expired buy offers of `fs`: price times quantity.
pub open spec fn expired_buy_cash(fs: Seq<FailedOffer<Trade>>) -> int
    decreases fs.len(),
{
    if fs.len() == 0 {
        0
    } else {
        expired_buy_cash(fs.drop_last()) + if fs.last().1 == TradeAction::Buy {
            cost(fs.last().0.strike_price, fs.last().0.data.number_of_shares)
        } else {
            0
        }
    }
}

proof fn lemma_escrowed_cash_prepend(x: Offer<Trade>, r: Seq<Offer<Trade>>)
    ensures
        escrowed_cash(seq![x] + r) == cost(x.strike_price, x.data.number_of_shares) + escrowed_cash(r),
    decreases r.len(),
{
    if r.len() > 0 {
        assert((seq![x] + r).drop_last() =~= seq![x] + r.drop_last());
        assert((seq![x] + r).last() == r.last());
        lemma_escrowed_cash_prepend(x, r.drop_last());
    } else {
        assert(seq![x] + r =~= seq![x]);
        assert(seq![x].drop_last() =~= Seq::<Offer<Trade>>::empty());
        assert(escrowed_cash(Seq::<Offer<Trade>>::empty()) == 0);
    }
}

/// A tick splits the escrowed cash of the buy side between the survivors and
/// the expired offers; the expired sell offers carry no buy cash.
proof fn lemma_tick_splits_cash(s: Seq<Offer<Trade>>, side: TradeAction)
    requires
        alive(s),
    ensures
        side == TradeAction::Buy ==> escrowed_cash(s) == escrowed_cash(survivors(s)) + expired_buy_cash(expiring(s, side)),
        side == TradeAction::Sell ==> expired_buy_cash(expiring(s, side)) == 0,
    decreases s.len(),
{
    if s.len() == 0 {
        assert(escrowed_cash(s) == 0);
        assert(escrowed_cash(survivors(s)) == 0);
        assert(expired_buy_cash(expiring(s, side)) == 0);
    } else {
        let rest = s.skip(1);
        assert(s =~= seq![s[0]] + rest);
        lemma_escrowed_cash_prepend(s[0], rest);
        assert(escrowed_cash(s) == cost(s[0].strike_price, s[0].data.number_of_shares) + escrowed_cash(rest));
        assert forall|i: int| 0 <= i < rest.len() implies #[trigger] rest[i].lifetime >= 1 by {
            assert(rest[i] == s[i + 1]);
        }
        lemma_tick_splits_cash(rest, side);
        assert(s[0].lifetime >= 1);
        if s[0].lifetime > 1 {
            lemma_escrowed_cash_prepend(crate::trade_house::aged_offer(s[0]), survivors(rest));
            assert(survivors(s) == seq![crate::trade_house::aged_offer(s[0])] + survivors(rest));
            assert(expiring(s, side) == expiring(rest, side));
        } else {
            let e = expiring(rest, side);
            let g = FailedOffer(crate::trade_house::aged_offer(s[0]), side);
            assert(e.push(g).drop_last() =~= e);
            assert(expiring(s, side) == e.push(g));
            assert(survivors(s) == survivors(rest));
            assert(expired_buy_cash(e.push(g)) == expired_buy_cash(e) + if side == TradeAction::Buy {
                cost(s[0].strike_price, s[0].data.number_of_shares)
            } else {
                0
            });
        }
    }
}

proof fn lemma_total_cash_bound(b: Seq<u64>, a: int)
    requires
        0 <= a < b.len(),
    ensures
        b[a] <= total_cash(b),
        total_cash(b) >= 0,
    decreases b.len(),
{
    if a < b.len() - 1 {
        lemma_total_cash_bound(b.drop_last(), a);
    } else {
        lemma_total_cash_nonneg(b.drop_last());
    }
}

proof fn lemma_total_cash_nonneg(b: Seq<u64>)
    ensures
        total_cash(b) >= 0,
    decreases b.len(),
{
    if b.len() > 0 {
        lemma_total_cash_nonneg(b.drop_last());
    }
}

proof fn lemma_expired_buy_cash_nonneg(fs: Seq<FailedOffer<Trade>>)
    ensures
        expired_buy_cash(fs) >= 0,
    decreases fs.len(),
{
    if fs.len() > 0 {
        lemma_expired_buy_cash_nonneg(fs.drop_last());
        let f = fs.last();
        assert(f.0.strike_price as int * f.0.data.number_of_shares as int >= 0) by (nonlinear_arith);
    }
}

proof fn lemma_expired_buy_cash_append(a: Seq<FailedOffer<Trade>>, b: Seq<FailedOffer<Trade>>)
    ensures
        expired_buy_cash(a + b) == expired_buy_cash(a) + expired_buy_cash(b),
    decreases b.len(),
{
    if b.len() > 0 {
        assert((a + b).drop_last() =~= a + b.drop_last());
        lemma_expired_buy_cash_append(a, b.drop_last());
    } else {
        assert(a + b =~= a);
    }
}

/// Refunding expired offers adds the cash of the expired buy offers to the
/// balances, when their offerers are known agents and the total fits.
proof fn lemma_refunds_restore_cash(b: Seq<u64>, h: Map<u128, u64>, c: u64, fs: Seq<FailedOffer<Trade>>)
    requires
        forall|i: int| 0 <= i < fs.len() && fs[i].1 == TradeAction::Buy ==> #[trigger] fs[i].0.offerer_id < b.len(),
        total_cash(b) + expired_buy_cash(fs) <= u64::MAX,
    ensures
        total_cash(refunded_all(b, h, c, fs).0) == total_cash(b) + expired_buy_cash(fs),
        refunded_all(b, h, c, fs).0.len() == b.len(),
    decreases fs.len(),
{
    if fs.len() > 0 {
        let init = fs.drop_last();
        assert forall|i: int| 0 <= i < init.len() && init[i].1 == TradeAction::Buy implies #[trigger] init[i].0.offerer_id < b.len() by {
            assert(init[i] == fs[i]);
        }
        let f = fs.last();
        lemma_expired_buy_cash_nonneg(init);
        assert(f.0.strike_price as int * f.0.data.number_of_shares as int >= 0) by (nonlinear_arith);
        lemma_refunds_restore_cash(b, h, c, init);
        let (b1, h1) = refunded_all(b, h, c, init);
        if f.1 == TradeAction::Buy {
            assert(fs[fs.len() - 1] == f);
            lemma_total_cash_bound(b1, f.0.offerer_id as int);
            let cash = f.0.strike_price as int * f.0.data.shares() as int;
            lemma_total_cash_update(b1, f.0.offerer_id as int, (b1[f.0.offerer_id as int] + cash) as u64);
        }
    }
}

/// Cash is conserved by an expiry tick followed by the refunds of what expired:
/// all balances plus the cash escrowed in the company's buy offers are the same
/// before and after, when every buy offerer is a known agent and the total fits
/// in a `u64`.
pub proof fn lemma_expiry_conserves_cash(
    b: Seq<u64>,
    h: Map<u128, u64>,
    c: u64,
    sells: Seq<Offer<Trade>>,
    buys: Seq<Offer<Trade>>,
)
    requires
        alive(sells),
        alive(buys),
        forall|i: int| 0 <= i < buys.len() ==> #[trigger] buys[i].offerer_id < b.len(),
        total_cash(b) + escrowed_cash(buys) <= u64::MAX,
    ensures
        total_cash(refunded_all(b, h, c, expiring_book(sells, buys)).0) + escrowed_cash(survivors(buys))
            == total_cash(b) + escrowed_cash(buys),
{
    lemma_tick_splits_cash(sells, TradeAction::Sell);
    lemma_tick_splits_cash(buys, TradeAction::Buy);
    let fs = expiring_book(sells, buys);
    let a = expiring(sells, TradeAction::Sell);
    lemma_expired_buy_cash_append(a, expiring(buys, TradeAction::Buy));
    lemma_escrowed_cash_nonneg(survivors(buys));
    assert forall|i: int| 0 <= i < fs.len() && fs[i].1 == TradeAction::Buy implies #[trigger] fs[i].0.offerer_id < b.len() by {
        if i < a.len() {
            lemma_expiring_side(sells, TradeAction::Sell, i);
            assert(fs[i] == a[i]);
        } else {
            assert(fs[i] == expiring(buys, TradeAction::Buy)[i - a.len()]);
            lemma_expiring_origin(buys, TradeAction::Buy, i - a.len());
        }
    }
    lemma_refunds_restore_cash(b, h, c, fs);
}

proof fn lemma_escrowed_cash_nonneg(s: Seq<Offer<Trade>>)
    ensures
        escrowed_cash(s) >= 0,
    decreases s.len(),
{
    if s.len() > 0 {
        lemma_escrowed_cash_nonneg(s.drop_last());
        assert(s.last().strike_price as int * s.last().data.number_of_shares as int >= 0) by (nonlinear_arith);
    }
}

} // verus!

verus! {

/// Shares of company `c` in play: held by the agents plus escrowed in the
/// company's sell offers.
pub open spec fn shares_in_play(m: Market, a: Agents, c: u64) -> int {
    company_shares(a.holdings@, c, a.num_of_agents as nat) + escrowed_shares(m.house.trade_offers.side(c, TradeAction::Sell))
}

/// Cash escrowed in the buy offers of the companies of `cs`.
pub open spec fn book_cash(m: Market, cs: Seq<u64>) -> int
    decreases cs.len(),
{
    if cs.len() == 0 {
        0
    } else {
        book_cash(m, cs.drop_last()) + escrowed_cash(m.house.trade_offers.side(cs.last(), TradeAction::Buy))
    }
}

/// Cash escrowed in lot bets.
pub open spec fn lots_cash(ls: Seq<Lots>) -> int
    decreases ls.len(),
{
    if ls.len() == 0 {
        0
    } else {
        lots_cash(ls.drop_last()) + lot_cost(ls.last().strike_price, ls.last().lot_size, ls.last().total_num_of_bets)
    }
}

/// Cash in play: all balances, plus the cash escrowed in the buy offers of the
/// companies of `cs` and in lot bets.
pub open spec fn cash_in_play(m: Market, a: Agents, co: Companies, cs: Seq<u64>) -> int {
    total_cash(a.balances@) + book_cash(m, cs) + lots_cash(co.lots@)
}

proof fn lemma_book_cash_frame(m0: Market, m1: Market, cs: Seq<u64>)
    requires
        forall|c: u64| cs.contains(c) ==> #[trigger] m1.house.trade_offers.side(c, TradeAction::Buy) == m0.house.trade_offers.side(c, TradeAction::Buy),
    ensures
        book_cash(m1, cs) == book_cash(m0, cs),
    decreases cs.len(),
{
    if cs.len() > 0 {
        assert(cs.contains(cs.last()));
        assert forall|c: u64| cs.drop_last().contains(c) implies #[trigger] m1.house.trade_offers.side(c, TradeAction::Buy) == m0.house.trade_offers.side(c, TradeAction::Buy) by {
            let k = choose|k: int| 0 <= k < cs.drop_last().len() && cs.drop_last()[k] == c;
            assert(cs[k] == c);
        }
        lemma_book_cash_frame(m0, m1, cs.drop_last());
    }
}

proof fn lemma_book_cash_one(m0: Market, m1: Market, cs: Seq<u64>, c: u64)
    requires
        cs.no_duplicates(),
        cs.contains(c),
        forall|c2: u64| c2 != c ==> #[trigger] m1.house.trade_offers.side(c2, TradeAction::Buy) == m0.house.trade_offers.side(c2, TradeAction::Buy),
    ensures
        book_cash(m1, cs) == book_cash(m0, cs) - escrowed_cash(m0.house.trade_offers.side(c, TradeAction::Buy))
            + escrowed_cash(m1.house.trade_offers.side(c, TradeAction::Buy)),
    decreases cs.len(),
{
    let init = cs.drop_last();
    if cs.last() == c {
        assert forall|c2: u64| init.contains(c2) implies #[trigger] m1.house.trade_offers.side(c2, TradeAction::Buy) == m0.house.trade_offers.side(c2, TradeAction::Buy) by {
            let k = choose|k: int| 0 <= k < init.len() && init[k] == c2;
            assert(cs[k] == c2);
            assert(k != cs.len() - 1);
        }
        lemma_book_cash_frame(m0, m1, init);
    } else {
        let k = choose|k: int| 0 <= k < cs.len() && cs[k] == c;
        assert(init[k] == c);
        assert(init.no_duplicates()) by {
            assert forall|x: int, y: int| 0 <= x < init.len() && 0 <= y < init.len() && x != y implies init[x] != init[y] by {
                assert(init[x] == cs[x] && init[y] == cs[y]);
            }
        }
        lemma_book_cash_one(m0, m1, init, c);
    }
}

proof fn lemma_lots_cash_update(ls: Seq<Lots>, i: int, l: Lots)
    requires
        0 <= i < ls.len(),
    ensures
        lots_cash(ls.update(i, l)) == lots_cash(ls) - lot_cost(ls[i].strike_price, ls[i].lot_size, ls[i].total_num_of_bets)
            + lot_cost(l.strike_price, l.lot_size, l.total_num_of_bets),
    decreases ls.len(),
{
    if i < ls.len() - 1 {
        assert(ls.update(i, l).drop_last() =~= ls.drop_last().update(i, l));
        lemma_lots_cash_update(ls.drop_last(), i, l);
    } else {
        assert(ls.update(i, l).drop_last() =~= ls.drop_last());
    }
}

proof fn lemma_company_shares_other(h: Map<u128, u64>, c2: u64, n: nat, a: u64, c: u64, v: u64)
    requires
        c != c2,
    ensures
        company_shares(h.insert(key_of(a, c), v), c2, n) == company_shares(h, c2, n),
    decreases n,
{
    if n > 0 {
        crate::entities::agents::lemma_pair_key_injective((n - 1) as u64, c2, a, c);
        lemma_company_shares_other(h, c2, (n - 1) as nat, a, c, v);
    }
}

/// A fill leaves the shares of every other company where they were.
proof fn lemma_settled_holdings_local(pre: MarketState, post: MarketState, t: TodoTransactions, i: int, r: Result<Result<ActionState, Vec<usize>>, SimulationError>, c2: u64, n: nat)
    requires
        settled(pre, post, t, i, r),
        0 <= i < pre.opp.len(),
        c2 != t.company_id,
    ensures
        company_shares(post.holdings, c2, n) == company_shares(pre.holdings, c2, n),
{
    let o = pre.opp[i];
    if settle_check(pre, t, o) is Ok {
        let f = fill(t, o) as int;
        let k = key_of(t.agent_id, t.company_id);
        match t.action {
            TradeAction::Buy => {
                lemma_company_shares_other(pre.holdings, c2, n, t.agent_id, t.company_id, (shares_at(pre.holdings, k) + f) as u64);
            },
            TradeAction::Sell => {
                let h1 = take_shares_spec(pre.holdings, k, t.trade.number_of_shares as int);
                if pre.holdings.contains_key(k) {
                    lemma_company_shares_other(pre.holdings, c2, n, t.agent_id, t.company_id, (pre.holdings[k] - t.trade.number_of_shares) as u64);
                }
                let k2 = key_of(o.offerer_id, t.company_id);
                lemma_company_shares_other(h1, c2, n, o.offerer_id, t.company_id, (shares_at(h1, k2) + f) as u64);
            },
        }
    }
}

/// An order's outcome leaves the shares of every other company where they were.
proof fn lemma_outcome_holdings_local(pre: MarketState, post: MarketState, t: TodoTransactions, deviation: u64, r: Result<Result<ActionState, Vec<usize>>, SimulationError>, c2: u64, n: nat)
    requires
        trade_outcome(pre, post, t, deviation, r),
        c2 != t.company_id,
    ensures
        company_shares(post.holdings, c2, n) == company_shares(pre.holdings, c2, n),
{
    let p = t.strike_price;
    if escrow_check(pre, t) is Err {
        return;
    }
    if candidates(pre.opp, p, deviation, opposite(t.action)).len() == 0 {
        let k = key_of(t.agent_id, t.company_id);
        if t.action == TradeAction::Sell && pre.holdings.contains_key(k) {
            lemma_company_shares_other(pre.holdings, c2, n, t.agent_id, t.company_id, (pre.holdings[k] - t.trade.number_of_shares) as u64);
        }
        return;
    }
    if none_acceptable(pre.opp, p, t.action) {
        return;
    }
    let k0 = choose|k: int| 0 <= k < pre.opp.len() && !!acceptable(#[trigger] pre.opp[k], p, t.action);
    let i = lemma_first_acceptable_exists(pre.opp, k0, p, t.action);
    lemma_settled_holdings_local(pre, post, t, i, r, c2, n);
}

/// One order of a batch, as `trade` places it, conserves the shares of every
/// company in play and the cash in play.
proof fn lemma_trade_post_conserves(
    m0: Market,
    m1: Market,
    a0: Agents,
    a1: Agents,
    c0: Companies,
    c1: Companies,
    willing: bool,
    t: TodoTransactions,
    deviation: u64,
    r: Result<Result<ActionState, Vec<usize>>, SimulationError>,
    cs: Seq<u64>,
)
    requires
        a0.wf(),
        c0.wf(),
        trade_post(m0, m1, a0, a1, c0, c1, willing, t, deviation, r),
    ensures
        forall|c: u64| #[trigger] shares_in_play(m1, a1, c) == shares_in_play(m0, a0, c),
        cs.no_duplicates() && cs.contains(t.company_id) ==> cash_in_play(m1, a1, c1, cs) == cash_in_play(m0, a0, c0, cs),
{
    let c = t.company_id;
    let pre = m0.state(&a0, t);
    let post = m1.state(&a1, t);
    let n = a0.num_of_agents as nat;
    if escrow_check(pre, t) is Err {
        return;
    }
    if willing && t.action == TradeAction::Buy && c < c0.num_of_companies && !c0.lots@[c as int].blank() {
        let l = c0.lots@[c as int];
        let nb = lots_for_shares(t.trade.number_of_shares, l.lot_size);
        assert(a1.holdings@ == a0.holdings@);
        assert forall|c2: u64| #[trigger] shares_in_play(m1, a1, c2) == shares_in_play(m0, a0, c2) by {}
        if cs.no_duplicates() && cs.contains(c) {
            assert forall|c2: u64| cs.contains(c2) implies #[trigger] m1.house.trade_offers.side(c2, TradeAction::Buy) == m0.house.trade_offers.side(c2, TradeAction::Buy) by {}
            lemma_book_cash_frame(m0, m1, cs);
            assert(c1.lots@ =~= c0.lots@.update(c as int, c1.lots@[c as int]));
            lemma_lots_cash_update(c0.lots@, c as int, c1.lots@[c as int]);
            assert(l.wf());
            let cash = lot_cost(l.strike_price, l.lot_size, nb);
            if lot_bet(l, a0.balances@, t.agent_id, nb).2 is Ok {
                let i = bet_index(l.bets@, t.agent_id);
                crate::entities::companies::lemma_bet_index(l.bets@, t.agent_id);
                if i < l.bets@.len() {
                    lemma_bet_le_sum(l.bets@, i);
                }
                lemma_sum_lots_added(l.bets@, t.agent_id, nb);
                lemma_credit_total(a0.balances@, t.agent_id, -cash);
                let sp = l.strike_price as int;
                let sz = l.lot_size as int;
                assert(sp * sz * (l.total_num_of_bets + nb) == sp * sz * l.total_num_of_bets + sp * sz * nb) by (nonlinear_arith);
            }
        }
        return;
    }
    // executed against the book
    assert(c1.lots@ == c0.lots@);
    assert forall|c2: u64| #[trigger] shares_in_play(m1, a1, c2) == shares_in_play(m0, a0, c2) by {
        if c2 == c {
            lemma_trade_conserves_shares(pre, post, t, deviation, r);
        } else {
            lemma_outcome_holdings_local(pre, post, t, deviation, r, c2, n);
        }
    }
    if cs.no_duplicates() && cs.contains(c) {
        lemma_trade_conserves_cash(pre, post, t, deviation, r);
        lemma_book_cash_one(m0, m1, cs, c);
    }
}

/// A concession conserves the shares of every company in play and the cash in
/// play.
proof fn lemma_concede_post_conserves(
    m0: Market,
    m1: Market,
    a0: Agents,
    a1: Agents,
    co: Companies,
    t: TodoTransactions,
    index: usize,
    r: Result<Result<ActionState, Vec<usize>>, SimulationError>,
    cs: Seq<u64>,
)
    requires
        a0.wf(),
        concede_post(m0, m1, a0, a1, t, index, r),
    ensures
        forall|c: u64| #[trigger] shares_in_play(m1, a1, c) == shares_in_play(m0, a0, c),
        cs.no_duplicates() && cs.contains(t.company_id) ==> cash_in_play(m1, a1, co, cs) == cash_in_play(m0, a0, co, cs),
{
    let c = t.company_id;
    let pre = m0.state(&a0, t);
    let post = m1.state(&a1, t);
    let n = a0.num_of_agents as nat;
    if cs.no_duplicates() && cs.contains(c) {
        lemma_book_cash_one(m0, m1, cs, c);
    }
    if index >= pre.opp.len() {
        assert(buy_side(post, t) == buy_side(pre, t));
        return;
    }
    let t2 = at_price_of(t, pre.opp[index as int]);
    assert(m0.state(&a0, t2) == pre && m1.state(&a1, t2) == post);
    if escrow_check(pre, t2) is Err {
        assert(buy_side(post, t) == buy_side(pre, t));
        return;
    }
    assert forall|c2: u64| #[trigger] shares_in_play(m1, a1, c2) == shares_in_play(m0, a0, c2) by {
        if c2 == c {
            lemma_settled_conserves_shares(pre, post, t2, index as int, r);
        } else {
            lemma_settled_holdings_local(pre, post, t2, index as int, r, c2, n);
        }
    }
    if cs.no_duplicates() && cs.contains(c) {
        lemma_settled_conserves_cash(pre, post, t2, index as int, r);
        lemma_book_cash_one(m0, m1, cs, c);
    }
}

} // verus!

verus! {

/// One order of a batch conserves the shares of every company in play, and the
/// cash in play over any companies among which is the order's.
pub proof fn lemma_step_conserves(
    m0: Market,
    m1: Market,
    a0: Agents,
    a1: Agents,
    c0: Companies,
    c1: Companies,
    t: TodoTransactions,
    draw: TradeDraw,
    deviation: u64,
    r: Result<Result<ActionState, Vec<usize>>, SimulationError>,
    cs: Seq<u64>,
)
    requires
        a0.wf(),
        c0.wf(),
        step_post(m0, m1, a0, a1, c0, c1, t, draw, deviation, r),
    ensures
        forall|c: u64| #[trigger] shares_in_play(m1, a1, c) == shares_in_play(m0, a0, c),
        cs.no_duplicates() && cs.contains(t.company_id) ==> cash_in_play(m1, a1, c1, cs) == cash_in_play(m0, a0, c0, cs),
{
    let (m, a, r1) = choose|m: Market, a: Agents, r1: Result<Result<ActionState, Vec<usize>>, SimulationError>| {
        &&& trade_post(m0, m, a0, a, c0, c1, draw.accept_lots, t, deviation, r1)
        &&& match concession(r1, draw) {
            Some(k) => concede_post(m, m1, a, a1, t, k, r),
            None => m1 == m && a1 == a && r == r1,
        }
    };
    lemma_trade_post_conserves(m0, m, a0, a, c0, c1, draw.accept_lots, t, deviation, r1, cs);
    if let Some(k) = concession(r1, draw) {
        lemma_concede_post_conserves(m, m1, a, a1, c1, t, k, r, cs);
    }
}

} // verus!
