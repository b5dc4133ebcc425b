use crate::entities::agents::{key_of, shares_at, Agents};
use crate::entities::balance_add;
use crate::market::{credit, credit_fits};
use crate::transaction::TodoTransactions;
use crate::SimulationError;
use vstd::prelude::*;

verus! {

/// The price bar of one company.
#[derive(Debug, Clone, Copy, PartialEq, Eq, Structural)]
pub struct MarketValue {
    /// Mean fill price of the last bar, rounded down.
    pub current_price: u64,
    pub highest_price: u64,
    pub lowest_price: u64,
    pub overall_movement_start: u64,
    pub overall_movement_end: u64,
}

impl MarketValue {
    /// A bar with every price zero.
    pub fn new() -> (r: Self)
        ensures
            r == (MarketValue {
                current_price: 0,
                highest_price: 0,
                lowest_price: 0,
                overall_movement_start: 0,
                overall_movement_end: 0,
            }),
    {
        MarketValue {
            current_price: 0,
            highest_price: 0,
            lowest_price: 0,
            overall_movement_start: 0,
            overall_movement_end: 0,
        }
    }
}

/// Sum of the lot counts of a list of bets.
pub open spec fn sum_lots(s: Seq<(u64, u64)>) -> int
    decreases s.len(),
{
    if s.len() == 0 {
        0
    } else {
        sum_lots(s.drop_last()) + s.last().1
    }
}

/// Index of the first bet of agent `a`, or `s.len()` if it has none.
pub open spec fn bet_index(s: Seq<(u64, u64)>, a: u64) -> int
    decreases s.len(),
{
    if s.len() == 0 {
        0
    } else if s[0].0 == a {
        0
    } else {
        1 + bet_index(s.skip(1), a)
    }
}

pub proof fn lemma_bet_index(s: Seq<(u64, u64)>, a: u64)
    ensures
        0 <= bet_index(s, a) <= s.len(),
        bet_index(s, a) < s.len() ==> s[bet_index(s, a)].0 == a,
        forall|j: int| 0 <= j < bet_index(s, a) ==> #[trigger] s[j].0 != a,
    decreases s.len(),
{
    if s.len() > 0 && s[0].0 != a {
        lemma_bet_index(s.skip(1), a);
        assert forall|j: int| 0 <= j < bet_index(s, a) implies #[trigger] s[j].0 != a by {
            if j > 0 {
                assert(s[j] == s.skip(1)[j - 1]);
            }
        }
    }
}

proof fn lemma_sum_lots_update(s: Seq<(u64, u64)>, i: int, v: (u64, u64))
    requires
        0 <= i < s.len(),
    ensures
        sum_lots(s.update(i, v)) == sum_lots(s) - s[i].1 + v.1,
    decreases s.len(),
{
    if i < s.len() - 1 {
        assert(s.update(i, v).drop_last() =~= s.drop_last().update(i, v));
        lemma_sum_lots_update(s.drop_last(), i, v);
    } else {
        assert(s.update(i, v).drop_last() =~= s.drop_last());
    }
}

proof fn lemma_sum_lots_remove(s: Seq<(u64, u64)>, i: int)
    requires
        0 <= i < s.len(),
    ensures
        sum_lots(s.remove(i)) == sum_lots(s) - s[i].1,
    decreases s.len(),
{
    if i < s.len() - 1 {
        assert(s.remove(i).drop_last() =~= s.drop_last().remove(i));
        lemma_sum_lots_remove(s.drop_last(), i);
    } else {
        assert(s.remove(i) =~= s.drop_last());
    }
}

/// The primary issuance of one company: lots of `lot_size` shares at
/// `strike_price` per share, and the bets placed on them, as (agent, lots).
#[derive(Debug)]
pub struct Lots {
    pub strike_price: u64,
    pub number_of_lots: u64,
    pub lot_size: u64,
    pub bets: Vec<(u64, u64)>,
    pub total_num_of_bets: u64,
}

impl Lots {
    /// The running total counts the lots of every bet, and each bettor has one
    /// bet.
    pub open spec fn wf(&self) -> bool {
        self.total_num_of_bets == sum_lots(self.bets@) && bettors_unique(self.bets@)
    }

    /// Whether no issuance is open.
    pub open spec fn blank(&self) -> bool {
        self.strike_price == 0 || self.lot_size == 0 || self.number_of_lots == 0
    }

    /// The lots that agent `a` has bet.
    pub open spec fn bet_of(&self, a: u64) -> u64 {
        let i = bet_index(self.bets@, a);
        if i < self.bets@.len() {
            self.bets@[i].1
        } else {
            0
        }
    }

    /// An issuance with no bets.
    pub fn new(strike_price: u64, number_of_lots: u64, lot_size: u64) -> (r: Self)
        ensures
            r.wf(),
            r.strike_price == strike_price,
            r.number_of_lots == number_of_lots,
            r.lot_size == lot_size,
            r.bets@ == Seq::<(u64, u64)>::empty(),
    {
        Lots { strike_price, number_of_lots, lot_size, bets: Vec::new(), total_num_of_bets: 0 }
    }

    pub fn is_blank(&self) -> (r: bool)
        ensures
            r == self.blank(),
    {
        self.strike_price == 0 || self.lot_size == 0 || self.number_of_lots == 0
    }

    /// Ends the issuance and forgets its bets.
    pub fn close(&mut self)
        ensures
            final(self).wf(),
            final(self).strike_price == 0,
            final(self).number_of_lots == 0,
            final(self).lot_size == 0,
            final(self).bets@ == Seq::<(u64, u64)>::empty(),
    {
        self.strike_price = 0;
        self.number_of_lots = 0;
        self.lot_size = 0;
        self.total_num_of_bets = 0;
        self.bets.clear();
    }

    /// Opens a new issuance at `exact_price` and forgets the old bets.
    pub fn rng_reset_exact_price(&mut self, exact_price: u64, number_of_lots: u64, lot_size: u64)
        ensures
            final(self).wf(),
            final(self).strike_price == exact_price,
            final(self).number_of_lots == number_of_lots,
            final(self).lot_size == lot_size,
            final(self).bets@ == Seq::<(u64, u64)>::empty(),
    {
        self.bets.clear();
        self.strike_price = exact_price;
        self.number_of_lots = number_of_lots;
        self.lot_size = lot_size;
        self.total_num_of_bets = 0;
    }

    /// The lots that `agent_id` has bet.
    pub fn get_bet(&self, agent_id: u64) -> (r: u64)
        ensures
            r == self.bet_of(agent_id),
    {
        match self.find(agent_id) {
            Some(i) => self.bets[i].1,
            None => 0,
        }
    }

    /// Index of the bet of `agent_id`.
    fn find(&self, agent_id: u64) -> (r: Option<usize>)
        ensures
            r matches Some(i) ==> i == bet_index(self.bets@, agent_id) && i < self.bets@.len(),
            r is None ==> bet_index(self.bets@, agent_id) == self.bets@.len(),
    {
        proof { lemma_bet_index(self.bets@, agent_id); }
        let mut i: usize = 0;
        while i < self.bets.len()
            invariant
                i <= self.bets@.len(),
                i <= bet_index(self.bets@, agent_id),
                0 <= bet_index(self.bets@, agent_id) <= self.bets@.len(),
                bet_index(self.bets@, agent_id) < self.bets@.len() ==> self.bets@[bet_index(self.bets@, agent_id)].0 == agent_id,
                forall|j: int| 0 <= j < bet_index(self.bets@, agent_id) ==> #[trigger] self.bets@[j].0 != agent_id,
            decreases self.bets.len() - i,
        {
            if self.bets[i].0 == agent_id {
                return Some(i);
            }
            i += 1;
        }
        None
    }

    /// Records a bet of `number_of_lots` lots for `agent_id`, without touching
    /// the ledger; nothing happens while no issuance is open. Fails, changing
    /// nothing, if a count would pass `u64::MAX`.
    pub fn add_bet(&mut self, agent_id: u64, number_of_lots: u64) -> (r: Result<(), SimulationError>)
        requires
            old(self).wf(),
        ensures
            final(self).wf(),
            final(self).strike_price == old(self).strike_price,
            final(self).number_of_lots == old(self).number_of_lots,
            final(self).lot_size == old(self).lot_size,
            old(self).blank() ==> r is Ok && final(self).bets@ == old(self).bets@,
            !old(self).blank() && old(self).total_num_of_bets + number_of_lots > u64::MAX ==> r == Err::<(), SimulationError>(SimulationError::Unspendable) && final(self).bets@ == old(self).bets@,
            !old(self).blank() && old(self).total_num_of_bets + number_of_lots <= u64::MAX ==> r is Ok && final(self).bets@ == added_bet(old(self).bets@, agent_id, number_of_lots),
    {
        if self.is_blank() {
            return Ok(());
        }
        if number_of_lots > u64::MAX - self.total_num_of_bets {
            return Err(SimulationError::Unspendable);
        }
        proof { lemma_bet_index(self.bets@, agent_id); }
        match self.find(agent_id) {
            Some(i) => {
                proof {
                    lemma_bet_le_sum(self.bets@, i as int);
                    lemma_sum_lots_update(self.bets@, i as int, (agent_id, (self.bets@[i as int].1 + number_of_lots) as u64));
                }
                let old_lots = self.bets[i].1;
                self.bets.set(i, (agent_id, old_lots + number_of_lots));
            },
            None => {
                proof { assert(self.bets@.push((agent_id, number_of_lots)).drop_last() =~= self.bets@); }
                self.bets.push((agent_id, number_of_lots));
            },
        }
        self.total_num_of_bets = self.total_num_of_bets + number_of_lots;
        Ok(())
    }
}

/// What a bet of `n` lots by `agent_id` on issuance `l` does to its bets and to
/// the ledger `b`, with its result: the cash of the lots is escrowed. Nothing
/// happens while no issuance is open; an unknown agent, too little cash, or a
/// count beyond `u64::MAX` fails, changing nothing.
pub open spec fn lot_bet(l: Lots, b: Seq<u64>, agent_id: u64, n: u64) -> (Seq<(u64, u64)>, Seq<u64>, Result<(), SimulationError>) {
    let cash = lot_cost(l.strike_price, l.lot_size, n);
    if l.blank() {
        (l.bets@, b, Ok(()))
    } else if agent_id >= b.len() {
        (l.bets@, b, Err(SimulationError::AgentNotFound(agent_id)))
    } else if cash > b[agent_id as int] || l.total_num_of_bets + n > u64::MAX {
        (l.bets@, b, Err(SimulationError::Unspendable))
    } else {
        (added_bet(l.bets@, agent_id, n), credit(b, agent_id, -cash), Ok(()))
    }
}

/// The lots nearest to `q` shares at `lot_size` shares per lot, halves up.
pub open spec fn lots_for_shares(q: u64, lot_size: u64) -> u64 {
    (q / lot_size + if 2 * (q % lot_size) >= lot_size { 1int } else { 0int }) as u64
}

/// No agent has two bets.
pub open spec fn bettors_unique(s: Seq<(u64, u64)>) -> bool {
    forall|i: int, j: int| 0 <= i < j < s.len() ==> #[trigger] s[i].0 != #[trigger] s[j].0
}

/// After a withdrawal of all its lots an agent has no bet left.
pub proof fn lemma_withdrawn_all(s: Seq<(u64, u64)>, a: u64)
    requires
        bettors_unique(s),
        bet_index(s, a) < s.len(),
    ensures
        bet_index(withdrawn_bet(s, a, s[bet_index(s, a)].1), a) == withdrawn_bet(s, a, s[bet_index(s, a)].1).len(),
{
    lemma_bet_index(s, a);
    let k = bet_index(s, a);
    let t = withdrawn_bet(s, a, s[k].1);
    lemma_bet_index(t, a);
    if bet_index(t, a) < t.len() {
        let i = bet_index(t, a);
        let i2 = if i < k { i } else { i + 1 };
        assert(t[i] == s[i2]);
    }
}

/// The bets after agent `a` bets `n` more lots.
pub open spec fn added_bet(s: Seq<(u64, u64)>, a: u64, n: u64) -> Seq<(u64, u64)> {
    let i = bet_index(s, a);
    if i < s.len() {
        s.update(i, (a, (s[i].1 + n) as u64))
    } else {
        s.push((a, n))
    }
}

/// A bet of `n` more lots adds `n` to the lots bet.
pub proof fn lemma_sum_lots_added(s: Seq<(u64, u64)>, a: u64, n: u64)
    requires
        bet_index(s, a) < s.len() ==> s[bet_index(s, a)].1 + n <= u64::MAX,
    ensures
        sum_lots(added_bet(s, a, n)) == sum_lots(s) + n,
{
    lemma_bet_index(s, a);
    let i = bet_index(s, a);
    if i < s.len() {
        lemma_sum_lots_update(s, i, (a, (s[i].1 + n) as u64));
    } else {
        assert(s.push((a, n)).drop_last() =~= s);
    }
}

pub proof fn lemma_bet_le_sum(s: Seq<(u64, u64)>, i: int)
    requires
        0 <= i < s.len(),
    ensures
        s[i].1 <= sum_lots(s),
{
    lemma_sum_lots_update(s, i, (s[i].0, 0));
    lemma_sum_lots_nonneg(s.update(i, (s[i].0, 0)));
}

proof fn lemma_sum_lots_nonneg(s: Seq<(u64, u64)>)
    ensures
        sum_lots(s) >= 0,
    decreases s.len(),
{
    if s.len() > 0 {
        lemma_sum_lots_nonneg(s.drop_last());
    }
}


/// Cash of `n` lots at the issuance's price.
pub open spec fn lot_cost(strike_price: u64, lot_size: u64, n: u64) -> int {
    strike_price as int * lot_size as int * n as int
}

/// `strike_price * lot_size * n`, if it fits in a `u64`.
fn checked_lot_cost(strike_price: u64, lot_size: u64, n: u64) -> (r: Option<u64>)
    ensures
        r matches Some(v) ==> v == lot_cost(strike_price, lot_size, n),
        r is None ==> lot_cost(strike_price, lot_size, n) > u64::MAX,
{
    proof {
        assert(strike_price as int * lot_size as int <= u64::MAX as int * u64::MAX as int) by (nonlinear_arith)
            requires strike_price <= u64::MAX, lot_size <= u64::MAX;
    }
    let per_lot: u128 = strike_price as u128 * lot_size as u128;
    if n == 0 {
        assert(lot_cost(strike_price, lot_size, n) == 0) by (nonlinear_arith)
            requires n == 0;
        return Some(0);
    }
    if per_lot > u64::MAX as u128 / n as u128 {
        assert(per_lot as int * n as int > u64::MAX) by (nonlinear_arith)
            requires per_lot > u64::MAX as int / n as int, n > 0;
        return None;
    }
    assert(per_lot as int * n as int <= u64::MAX) by (nonlinear_arith)
        requires per_lot <= u64::MAX as int / n as int, n > 0;
    Some((per_lot * n as u128) as u64)
}

/// Index of the largest bet; the first one among equals.
pub open spec fn best(s: Seq<(u64, u64)>) -> int
    decreases s.len(),
{
    if s.len() <= 1 {
        0
    } else {
        let b = best(s.drop_last());
        if s.last().1 > s[b].1 {
            s.len() - 1
        } else {
            b
        }
    }
}

proof fn lemma_best_in_range(s: Seq<(u64, u64)>)
    requires
        s.len() > 0,
    ensures
        0 <= best(s) < s.len(),
    decreases s.len(),
{
    if s.len() > 1 {
        lemma_best_in_range(s.drop_last());
    }
}

/// The bets in the order the distribution serves them: largest first, earlier
/// bets first among equals.
pub open spec fn service_order(s: Seq<(u64, u64)>) -> Seq<(u64, u64)>
    decreases s.len(),
{
    if s.len() == 0 {
        s
    } else {
        let b = best(s);
        if 0 <= b < s.len() {
            seq![s[b]] + service_order(s.remove(b))
        } else {
            s
        }
    }
}

/// One step of the distribution: a bet that the remaining lots cover, and
/// whose shares the bettor's holding can take, is awarded its shares; any other
/// bet is refunded its cash where the balance can take it.
pub open spec fn serve(st: (Seq<u64>, Map<u128, u64>, u64), bet: (u64, u64), company_id: u64, strike_price: u64, lot_size: u64) -> (Seq<u64>, Map<u128, u64>, u64) {
    let (b, h, remaining) = st;
    let (a, n) = bet;
    let key = key_of(a, company_id);
    let shares = n as int * lot_size as int;
    if n <= remaining && a < b.len() && shares_at(h, key) + shares <= u64::MAX {
        (b, h.insert(key, (shares_at(h, key) + shares) as u64), (remaining - n) as u64)
    } else if credit_fits(b, a, lot_cost(strike_price, lot_size, n)) {
        (credit(b, a, lot_cost(strike_price, lot_size, n)), h, remaining)
    } else {
        st
    }
}

/// Whether one step of the distribution can award the bet its shares or
/// refund its cash.
pub open spec fn serve_fits(st: (Seq<u64>, Map<u128, u64>, u64), bet: (u64, u64), company_id: u64, strike_price: u64, lot_size: u64) -> bool {
    let (b, h, remaining) = st;
    let (a, n) = bet;
    (n <= remaining && a < b.len() && shares_at(h, key_of(a, company_id)) + n as int * lot_size as int <= u64::MAX)
        || credit_fits(b, a, lot_cost(strike_price, lot_size, n))
}

/// Whether every step of the distribution over `order` awards or refunds.
pub open spec fn serve_all_fit(st: (Seq<u64>, Map<u128, u64>, u64), order: Seq<(u64, u64)>, company_id: u64, strike_price: u64, lot_size: u64) -> bool
    decreases order.len(),
{
    if order.len() == 0 {
        true
    } else {
        serve_all_fit(st, order.drop_last(), company_id, strike_price, lot_size)
            && serve_fits(serve_all(st, order.drop_last(), company_id, strike_price, lot_size), order.last(), company_id, strike_price, lot_size)
    }
}

/// Whether every compression refund of `bets` can be applied.
pub open spec fn refund_all_fit(b: Seq<u64>, bets: Seq<(u64, u64)>, per_lot: int) -> bool
    decreases bets.len(),
{
    if bets.len() == 0 {
        true
    } else {
        let (a, n) = bets.last();
        refund_all_fit(b, bets.drop_last(), per_lot) && credit_fits(refund_all(b, bets.drop_last(), per_lot), a, per_lot * n)
    }
}

/// The distribution applied to the bets of `order`, in that order.
pub open spec fn serve_all(st: (Seq<u64>, Map<u128, u64>, u64), order: Seq<(u64, u64)>, company_id: u64, strike_price: u64, lot_size: u64) -> (Seq<u64>, Map<u128, u64>, u64)
    decreases order.len(),
{
    if order.len() == 0 {
        st
    } else {
        serve(serve_all(st, order.drop_last(), company_id, strike_price, lot_size), order.last(), company_id, strike_price, lot_size)
    }
}

/// Each bettor's compression refund, `per_lot` per lot bet, where the balance
/// can take it.
pub open spec fn refund_all(b: Seq<u64>, bets: Seq<(u64, u64)>, per_lot: int) -> Seq<u64>
    decreases bets.len(),
{
    if bets.len() == 0 {
        b
    } else {
        let b1 = refund_all(b, bets.drop_last(), per_lot);
        let (a, n) = bets.last();
        if credit_fits(b1, a, per_lot * n) {
            credit(b1, a, per_lot * n)
        } else {
            b1
        }
    }
}

/// The bets after agent `a` withdraws `n` of its lots.
pub open spec fn withdrawn_bet(s: Seq<(u64, u64)>, a: u64, n: u64) -> Seq<(u64, u64)> {
    let i = bet_index(s, a);
    if s[i].1 == n {
        s.remove(i)
    } else {
        s.update(i, (a, (s[i].1 - n) as u64))
    }
}

impl Lots {
    /// Index of the largest bet of `w`.
    fn best_index(w: &Vec<(u64, u64)>) -> (r: usize)
        requires
            w@.len() > 0,
        ensures
            r == best(w@),
    {
        let mut b: usize = 0;
        let mut i: usize = 1;
        proof { assert(w@.take(1).len() == 1); }
        while i < w.len()
            invariant
                1 <= i <= w@.len(),
                b == best(w@.take(i as int)),
                b < i,
            decreases w.len() - i,
        {
            proof {
                assert(w@.take(i + 1).drop_last() =~= w@.take(i as int));
                lemma_best_in_range(w@.take(i as int));
            }
            if w[i].1 > w[b].1 {
                b = i;
            }
            i += 1;
        }
        proof { assert(w@.take(w@.len() as int) =~= w@); }
        b
    }

    /// Bets `number_of_lots` lots for `agent_id`, escrowing their cash; nothing
    /// happens while no issuance is open.
    pub fn add_bet_and_update_agent(&mut self, agents: &mut Agents, agent_id: u64, number_of_lots: u64) -> (r: Result<(), SimulationError>)
        requires
            old(self).wf(),
        ensures
            final(self).wf(),
            final(self).strike_price == old(self).strike_price,
            final(self).number_of_lots == old(self).number_of_lots,
            final(self).lot_size == old(self).lot_size,
            final(agents).num_of_agents == old(agents).num_of_agents,
            final(agents).holdings == old(agents).holdings,
            final(agents).preferences == old(agents).preferences,
            final(agents).try_offers == old(agents).try_offers,
            (final(self).bets@, final(agents).balances@, r) == lot_bet(*old(self), old(agents).balances@, agent_id, number_of_lots),
    {
        if self.is_blank() {
            return Ok(());
        }
        let bal = match agents.balances.get(agent_id) {
            Ok(v) => v,
            Err(e) => {
                return Err(e);
            },
        };
        let cash = match checked_lot_cost(self.strike_price, self.lot_size, number_of_lots) {
            Some(v) => v,
            None => {
                return Err(SimulationError::Unspendable);
            },
        };
        if cash > bal || number_of_lots > u64::MAX - self.total_num_of_bets {
            return Err(SimulationError::Unspendable);
        }
        let _ = agents.balances.add(agent_id, -(cash as i128));
        let _ = self.add_bet(agent_id, number_of_lots);
        Ok(())
    }

    /// Withdraws `number_of_lots` of the lots `agent_id` bet, refunding their
    /// cash; nothing happens while no issuance is open.
    pub fn remove_bet_and_update_agent(&mut self, agents: &mut Agents, agent_id: u64, number_of_lots: u64) -> (r: Result<(), SimulationError>)
        requires
            old(self).wf(),
        ensures
            final(self).wf(),
            final(self).strike_price == old(self).strike_price,
            final(self).number_of_lots == old(self).number_of_lots,
            final(self).lot_size == old(self).lot_size,
            final(agents).num_of_agents == old(agents).num_of_agents,
            final(agents).holdings == old(agents).holdings,
            final(agents).preferences == old(agents).preferences,
            final(agents).try_offers == old(agents).try_offers,
            ({
                let cash = lot_cost(old(self).strike_price, old(self).lot_size, number_of_lots);
                let b = old(agents).balances@;
                let i = bet_index(old(self).bets@, agent_id);
                if old(self).blank() {
                    r is Ok && final(self).bets@ == old(self).bets@ && final(agents).balances@ == b
                } else if i >= old(self).bets@.len() {
                    r == Err::<(), SimulationError>(SimulationError::AgentNotFound(agent_id)) && final(self).bets@ == old(self).bets@ && final(agents).balances@ == b
                } else if old(self).bets@[i].1 < number_of_lots {
                    r == Err::<(), SimulationError>(SimulationError::Unspendable) && final(self).bets@ == old(self).bets@ && final(agents).balances@ == b
                } else if balance_add(b, agent_id, cash).1 is Err {
                    r == balance_add(b, agent_id, cash).1 && final(self).bets@ == old(self).bets@ && final(agents).balances@ == b
                } else {
                    &&& r is Ok
                    &&& final(self).bets@ == withdrawn_bet(old(self).bets@, agent_id, number_of_lots)
                    &&& final(agents).balances@ == balance_add(b, agent_id, cash).0
                }
            }),
    {
        if self.is_blank() {
            return Ok(());
        }
        proof { lemma_bet_index(self.bets@, agent_id); }
        let i = match self.find(agent_id) {
            Some(i) => i,
            None => {
                return Err(SimulationError::AgentNotFound(agent_id));
            },
        };
        let bet = self.bets[i].1;
        if bet < number_of_lots {
            return Err(SimulationError::Unspendable);
        }
        if agent_id >= agents.balances.0.len() as u64 {
            return Err(SimulationError::AgentNotFound(agent_id));
        }
        let cash = match checked_lot_cost(self.strike_price, self.lot_size, number_of_lots) {
            Some(v) => v,
            None => {
                return Err(SimulationError::Unspendable);
            },
        };
        let res = agents.balances.add(agent_id, cash as i128);
        if res.is_err() {
            return res;
        }
        proof {
            lemma_bet_le_sum(self.bets@, i as int);
            lemma_sum_lots_update(self.bets@, i as int, (agent_id, (bet - number_of_lots) as u64));
            lemma_sum_lots_remove(self.bets@, i as int);
        }
        if bet == number_of_lots {
            self.bets.remove(i);
        } else {
            self.bets.set(i, (agent_id, bet - number_of_lots));
        }
        self.total_num_of_bets = self.total_num_of_bets - number_of_lots;
        Ok(())
    }

    /// Withdraws `number_of_lots` of the lots `agent_id` bet, without touching
    /// the ledger; nothing happens while no issuance is open.
    pub fn remove_bet(&mut self, agent_id: u64, number_of_lots: u64) -> (r: Result<(), SimulationError>)
        requires
            old(self).wf(),
        ensures
            final(self).wf(),
            final(self).strike_price == old(self).strike_price,
            final(self).number_of_lots == old(self).number_of_lots,
            final(self).lot_size == old(self).lot_size,
            ({
                let i = bet_index(old(self).bets@, agent_id);
                if old(self).blank() {
                    r is Ok && final(self).bets@ == old(self).bets@
                } else if i >= old(self).bets@.len() {
                    r == Err::<(), SimulationError>(SimulationError::AgentNotFound(agent_id)) && final(self).bets@ == old(self).bets@
                } else if old(self).bets@[i].1 < number_of_lots {
                    r == Err::<(), SimulationError>(SimulationError::Unspendable) && final(self).bets@ == old(self).bets@
                } else {
                    r is Ok && final(self).bets@ == withdrawn_bet(old(self).bets@, agent_id, number_of_lots)
                }
            }),
    {
        if self.is_blank() {
            return Ok(());
        }
        proof { lemma_bet_index(self.bets@, agent_id); }
        let i = match self.find(agent_id) {
            Some(i) => i,
            None => {
                return Err(SimulationError::AgentNotFound(agent_id));
            },
        };
        let bet = self.bets[i].1;
        if bet < number_of_lots {
            return Err(SimulationError::Unspendable);
        }
        proof {
            lemma_bet_le_sum(self.bets@, i as int);
            lemma_sum_lots_update(self.bets@, i as int, (agent_id, (bet - number_of_lots) as u64));
            lemma_sum_lots_remove(self.bets@, i as int);
        }
        if bet == number_of_lots {
            self.bets.remove(i);
        } else {
            self.bets.set(i, (agent_id, bet - number_of_lots));
        }
        self.total_num_of_bets = self.total_num_of_bets - number_of_lots;
        Ok(())
    }

    /// Whether the issuance price is strictly within `acceptable_deviation` of
    /// `strike_price`.
    pub fn fits_agent_price(&self, strike_price: u64, acceptable_deviation: u64) -> (r: bool)
        ensures
            r == ((if self.strike_price >= strike_price { self.strike_price - strike_price } else { strike_price - self.strike_price }) < acceptable_deviation),
    {
        let diff = if self.strike_price >= strike_price {
            self.strike_price - strike_price
        } else {
            strike_price - self.strike_price
        };
        diff < acceptable_deviation
    }

    /// Divides the lot size by `ratio`, rounding down; returns by how much each
    /// lot shrank.
    pub fn compress_lot_size(&mut self, ratio: u64) -> (r: u64)
        requires
            ratio > 0,
        ensures
            final(self).lot_size == old(self).lot_size / ratio,
            r == old(self).lot_size - old(self).lot_size / ratio,
            final(self).strike_price == old(self).strike_price,
            final(self).number_of_lots == old(self).number_of_lots,
            final(self).bets == old(self).bets,
            final(self).total_num_of_bets == old(self).total_num_of_bets,
    {
        let new_lot_size = self.lot_size / ratio;
        let refund_difference = self.lot_size - new_lot_size;
        self.lot_size = new_lot_size;
        refund_difference
    }
}


/// The factor by which an issuance compresses: the number of lots divided by
/// the lots bet, where that is exact, divides the lot size exactly, and keeps
/// the scaled price within `u64`.
pub open spec fn compress_factor(strike_price: u64, number_of_lots: u64, lot_size: u64, total: u64) -> Option<u64> {
    if strike_price == 0 || lot_size == 0 || number_of_lots == 0 || total == 0 || number_of_lots % total != 0 {
        None
    } else {
        let k = number_of_lots / total;
        if lot_size % k != 0 || strike_price as int * k as int > u64::MAX {
            None
        } else {
            Some(k)
        }
    }
}

impl Lots {
    /// Compresses an undersubscribed issuance: where the lots bet divide the
    /// lots offered by an exact factor `k`, the lot size is divided by `k`,
    /// each bettor is refunded the cash of the shares its lots lost (where its
    /// balance can take it), and the price per share is multiplied by `k`.
    /// Otherwise fails with `UnDoable`, changing nothing. Nothing happens while
    /// no issuance is open.
    pub fn compress_shares(&mut self, agents: &mut Agents) -> (r: Result<(), SimulationError>)
        requires
            old(self).wf(),
            old(agents).wf(),
        ensures
            final(agents).wf(),
            final(self).wf(),
            final(self).number_of_lots == old(self).number_of_lots,
            final(self).bets@ == old(self).bets@,
            final(self).blank() == old(self).blank(),
            final(agents).num_of_agents == old(agents).num_of_agents,
            final(agents).holdings == old(agents).holdings,
            final(agents).preferences == old(agents).preferences,
            final(agents).try_offers == old(agents).try_offers,
            old(self).blank() ==> r is Ok && final(self).strike_price == old(self).strike_price
                && final(self).lot_size == old(self).lot_size && final(agents).balances@ == old(agents).balances@,
            !old(self).blank() ==> match compress_factor(old(self).strike_price, old(self).number_of_lots, old(self).lot_size, old(self).total_num_of_bets) {
                None => r == Err::<(), SimulationError>(SimulationError::UnDoable) && final(self).strike_price == old(self).strike_price
                    && final(self).lot_size == old(self).lot_size && final(agents).balances@ == old(agents).balances@,
                Some(k) => {
                    &&& r == if refund_all_fit(old(agents).balances@, old(self).bets@, (old(self).lot_size - old(self).lot_size / k) * old(self).strike_price) {
                        Ok::<(), SimulationError>(())
                    } else {
                        Err(SimulationError::Unspendable)
                    }
                    &&& final(self).lot_size == old(self).lot_size / k
                    &&& final(self).strike_price == old(self).strike_price * k
                    &&& final(agents).balances@ == refund_all(old(agents).balances@, old(self).bets@,
                        (old(self).lot_size - old(self).lot_size / k) * old(self).strike_price)
                },
            },
    {
        if self.is_blank() {
            return Ok(());
        }
        if self.total_num_of_bets == 0 || self.number_of_lots % self.total_num_of_bets != 0 {
            return Err(SimulationError::UnDoable);
        }
        let k = self.number_of_lots / self.total_num_of_bets;
        proof {
            vstd::arithmetic::div_mod::lemma_fundamental_div_mod(self.number_of_lots as int, self.total_num_of_bets as int);
            assert(k > 0) by (nonlinear_arith)
                requires
                    self.number_of_lots == self.total_num_of_bets * k + 0,
                    self.number_of_lots > 0,
                    k >= 0;
            assert(self.strike_price as int * k as int <= u64::MAX as int * u64::MAX as int) by (nonlinear_arith)
                requires self.strike_price <= u64::MAX, k <= u64::MAX;
        }
        if self.lot_size % k != 0 || self.strike_price as u128 * k as u128 > u64::MAX as u128 {
            return Err(SimulationError::UnDoable);
        }
        proof {
            vstd::arithmetic::div_mod::lemma_fundamental_div_mod(self.lot_size as int, k as int);
            assert(self.lot_size / k > 0) by (nonlinear_arith)
                requires
                    self.lot_size == k * (self.lot_size / k) + 0,
                    self.lot_size > 0;
            assert(self.strike_price * k > 0) by (nonlinear_arith)
                requires self.strike_price > 0, k > 0;
        }
        let ghost b0 = agents.balances@;
        let refund_difference = self.compress_lot_size(k);
        proof {
            assert(refund_difference as int * self.strike_price as int <= u64::MAX as int * u64::MAX as int) by (nonlinear_arith)
                requires refund_difference <= u64::MAX, self.strike_price <= u64::MAX;
        }
        let per_lot: u128 = refund_difference as u128 * self.strike_price as u128;
        let mut fit = true;
        let mut i: usize = 0;
        while i < self.bets.len()
            invariant
                i <= self.bets@.len(),
                self.bets@ == old(self).bets@,
                fit == refund_all_fit(b0, self.bets@.take(i as int), per_lot as int),
                agents.balances@ == refund_all(b0, self.bets@.take(i as int), per_lot as int),
                agents.wf(),
                agents.num_of_agents == old(agents).num_of_agents,
                agents.holdings == old(agents).holdings,
                agents.preferences == old(agents).preferences,
                agents.try_offers == old(agents).try_offers,
            decreases self.bets.len() - i,
        {
            proof { assert(self.bets@.take(i + 1).drop_last() =~= self.bets@.take(i as int)); }
            let (bettor, number_of_lots) = self.bets[i];
            let mut applied = false;
            if let Some(cash) = per_lot.checked_mul(number_of_lots as u128) {
                if bettor < agents.balances.0.len() as u64 && cash <= (u64::MAX - agents.balances.0[bettor as usize]) as u128 {
                    let _ = agents.balances.add(bettor, cash as i128);
                    applied = true;
                }
            }
            if !applied {
                fit = false;
            }
            i += 1;
        }
        proof { assert(self.bets@.take(self.bets@.len() as int) =~= self.bets@); }
        self.strike_price = self.strike_price * k;
        if fit {
            Ok(())
        } else {
            Err(SimulationError::Unspendable)
        }
    }

    /// Allocates the issuance to the bettors of company `company_id`, largest bet
    /// first (earlier bets first among equals): each bet that the remaining
    /// lots cover gets `lot_size` shares per lot; every other bet is refunded its
    /// cash. All bets are then cleared. Nothing happens while no issuance is open.
    /// A bet that can be neither awarded nor refunded (an unknown bettor, or an
    /// amount beyond `u64::MAX`) makes the result `Unspendable`.
    pub fn distribute_shares(&mut self, company_id: u64, agents: &mut Agents) -> (r: Result<(), SimulationError>)
        requires
            old(self).wf(),
            old(agents).wf(),
        ensures
            final(agents).wf(),
            old(self).blank() ==> r is Ok,
            !old(self).blank() ==> r == if serve_all_fit((old(agents).balances@, old(agents).holdings@, old(self).number_of_lots),
                service_order(old(self).bets@), company_id, old(self).strike_price, old(self).lot_size) {
                Ok::<(), SimulationError>(())
            } else {
                Err(SimulationError::Unspendable)
            },
            final(self).wf(),
            final(self).strike_price == old(self).strike_price,
            final(self).lot_size == old(self).lot_size,
            final(agents).num_of_agents == old(agents).num_of_agents,
            final(agents).preferences == old(agents).preferences,
            final(agents).try_offers == old(agents).try_offers,
            old(self).blank() ==> final(self).bets@ == old(self).bets@ && final(self).number_of_lots == old(self).number_of_lots
                && final(agents).balances@ == old(agents).balances@ && final(agents).holdings@ == old(agents).holdings@,
            !old(self).blank() ==> {
                let (b, h, remaining) = serve_all(
                    (old(agents).balances@, old(agents).holdings@, old(self).number_of_lots),
                    service_order(old(self).bets@), company_id, old(self).strike_price, old(self).lot_size);
                &&& final(self).bets@ == Seq::<(u64, u64)>::empty()
                &&& final(self).number_of_lots == remaining
                &&& final(agents).balances@ == b
                &&& final(agents).holdings@ == h
            },
    {
        if self.is_blank() {
            return Ok(());
        }
        let mut fit = true;
        let mut w: Vec<(u64, u64)> = Vec::new();
        std::mem::swap(&mut w, &mut self.bets);
        let ghost w0 = w@;
        let ghost st0 = (agents.balances@, agents.holdings@, self.number_of_lots);
        let ghost mut done: Seq<(u64, u64)> = Seq::empty();
        proof { assert(done + service_order(w@) =~= service_order(w0)); }
        while w.len() > 0
            invariant
                service_order(w0) == done + service_order(w@),
                (agents.balances@, agents.holdings@, self.number_of_lots) == serve_all(st0, done, company_id, self.strike_price, self.lot_size),
                fit == serve_all_fit(st0, done, company_id, self.strike_price, self.lot_size),
                self.bets@ == Seq::<(u64, u64)>::empty(),
                self.strike_price == old(self).strike_price,
                self.lot_size == old(self).lot_size,
                agents.wf(),
                agents.num_of_agents == old(agents).num_of_agents,
                agents.preferences == old(agents).preferences,
                agents.try_offers == old(agents).try_offers,
            decreases w.len(),
        {
            let bi = Self::best_index(&w);
            proof { lemma_best_in_range(w@); }
            let ghost w_before = w@;
            let (a, n) = w.remove(bi);
            proof {
                assert(service_order(w_before) == seq![(a, n)] + service_order(w@));
                assert(done.push((a, n)) + service_order(w@) =~= done + service_order(w_before));
                assert(done.push((a, n)).drop_last() =~= done);
                assert(n as int * self.lot_size as int <= u64::MAX as int * u64::MAX as int) by (nonlinear_arith)
                    requires n <= u64::MAX, self.lot_size <= u64::MAX;
            }
            let shares: u128 = n as u128 * self.lot_size as u128;
            let held = agents.holdings.get(a, company_id);
            if n <= self.number_of_lots && a < agents.num_of_agents && shares <= (u64::MAX - held) as u128 {
                proof { crate::entities::agents::lemma_keys_within_put(agents.holdings@, agents.num_of_agents as nat, a, company_id, (held + shares) as u64); }
                agents.holdings.push(a, company_id, shares as u64);
                self.number_of_lots = self.number_of_lots - n;
            } else {
                let mut applied = false;
                if let Some(cash) = checked_lot_cost(self.strike_price, self.lot_size, n) {
                    if a < agents.balances.0.len() as u64 && cash <= u64::MAX - agents.balances.0[a as usize] {
                        let _ = agents.balances.add(a, cash as i128);
                        applied = true;
                    }
                }
                if !applied {
                    fit = false;
                }
            }
            proof { done = done.push((a, n)); }
        }
        proof { assert(done =~= service_order(w0)); }
        self.total_num_of_bets = 0;
        if fit {
            Ok(())
        } else {
            Err(SimulationError::Unspendable)
        }
    }

    /// Closes a round of the issuance: compresses it where that is exact, then
    /// distributes the shares. The result is `Unspendable` when a refund or an
    /// award could not be applied; the rest of the round is still carried out.
    pub fn finalize(&mut self, company_id: u64, agents: &mut Agents) -> (r: Result<(), SimulationError>)
        requires
            old(self).wf(),
            old(agents).wf(),
        ensures
            final(agents).wf(),
            final(self).wf(),
            final(self).bets@ == Seq::<(u64, u64)>::empty() || old(self).blank(),
            final(agents).num_of_agents == old(agents).num_of_agents,
            final(agents).preferences == old(agents).preferences,
            final(agents).try_offers == old(agents).try_offers,
            !old(self).blank() ==> {
                let l = old(self);
                let (strike, size, b1) = match compress_factor(l.strike_price, l.number_of_lots, l.lot_size, l.total_num_of_bets) {
                    Some(k) => ((l.strike_price * k) as u64, l.lot_size / k,
                        refund_all(old(agents).balances@, l.bets@, (l.lot_size - l.lot_size / k) * l.strike_price)),
                    None => (l.strike_price, l.lot_size, old(agents).balances@),
                };
                let (b, h, remaining) = serve_all((b1, old(agents).holdings@, l.number_of_lots), service_order(l.bets@), company_id, strike, size);
                let refunds_fit = match compress_factor(l.strike_price, l.number_of_lots, l.lot_size, l.total_num_of_bets) {
                    Some(k) => refund_all_fit(old(agents).balances@, l.bets@, (l.lot_size - l.lot_size / k) * l.strike_price),
                    None => true,
                };
                &&& r == if refunds_fit && serve_all_fit((b1, old(agents).holdings@, l.number_of_lots), service_order(l.bets@), company_id, strike, size) {
                    Ok::<(), SimulationError>(())
                } else {
                    Err(SimulationError::Unspendable)
                }
                &&& final(self).number_of_lots == remaining
                &&& final(agents).balances@ == b
                &&& final(agents).holdings@ == h
            },
    {
        let compressed = self.compress_shares(agents);
        let distributed = self.distribute_shares(company_id, agents);
        let compress_lost = match compressed {
            Err(SimulationError::Unspendable) => true,
            _ => false,
        };
        if compress_lost || distributed.is_err() {
            Err(SimulationError::Unspendable)
        } else {
            Ok(())
        }
    }
}


impl Lots {
    /// A copy of the issuance.
    pub fn duplicate(&self) -> (r: Lots)
        ensures
            r.strike_price == self.strike_price,
            r.number_of_lots == self.number_of_lots,
            r.lot_size == self.lot_size,
            r.bets@ == self.bets@,
            r.total_num_of_bets == self.total_num_of_bets,
    {
        let mut bets: Vec<(u64, u64)> = Vec::new();
        let mut i: usize = 0;
        while i < self.bets.len()
            invariant
                i <= self.bets@.len(),
                bets@ == self.bets@.take(i as int),
            decreases self.bets.len() - i,
        {
            proof { assert(self.bets@.take(i + 1) =~= self.bets@.take(i as int).push(self.bets@[i as int])); }
            bets.push(self.bets[i]);
            i += 1;
        }
        proof { assert(self.bets@.take(self.bets@.len() as int) =~= self.bets@); }
        Lots {
            strike_price: self.strike_price,
            number_of_lots: self.number_of_lots,
            lot_size: self.lot_size,
            bets,
            total_num_of_bets: self.total_num_of_bets,
        }
    }
}

/// The persisted record of one company.
#[derive(Debug)]
pub struct Company {
    pub id: u64,
    pub market_value: MarketValue,
    pub lots: Lots,
    pub lot_finalization_time: u64,
}

impl Company {
    /// A company whose bar stands flat at `current_price`, with an issuance of
    /// `(strike_price, number_of_lots, lot_size)` and no bets.
    pub fn new(id: u64, current_price: u64, lots: (u64, u64, u64)) -> (r: Self)
        ensures
            r.id == id,
            r.market_value.current_price == current_price,
            r.market_value.highest_price == current_price,
            r.market_value.lowest_price == current_price,
            r.lots.wf(),
            r.lots.strike_price == lots.0,
            r.lots.number_of_lots == lots.1,
            r.lots.lot_size == lots.2,
            r.lots.bets@ == Seq::<(u64, u64)>::empty(),
            r.lot_finalization_time == 0,
    {
        Company {
            id,
            market_value: MarketValue {
                current_price,
                highest_price: current_price,
                lowest_price: current_price,
                overall_movement_start: current_price,
                overall_movement_end: current_price,
            },
            lots: Lots::new(lots.0, lots.1, lots.2),
            lot_finalization_time: 0,
        }
    }
}

/// The companies: price bars, issuances and issuance deadlines, indexed by
/// company id.
#[derive(Debug)]
pub struct Companies {
    pub num_of_companies: u64,
    pub market_values: Vec<MarketValue>,
    pub lots: Vec<Lots>,
    pub lot_finalization_times: Vec<u64>,
}

impl Companies {
    pub open spec fn wf(&self) -> bool {
        &&& self.market_values@.len() == self.num_of_companies
        &&& self.lots@.len() == self.num_of_companies
        &&& self.lot_finalization_times@.len() == self.num_of_companies
        &&& forall|i: int| 0 <= i < self.lots@.len() ==> #[trigger] self.lots@[i].wf()
    }

    /// No companies.
    pub fn new() -> (r: Self)
        ensures
            r.wf(),
            r.num_of_companies == 0,
    {
        Companies { num_of_companies: 0, market_values: Vec::new(), lots: Vec::new(), lot_finalization_times: Vec::new() }
    }

    /// Appends the given records, in order, as new companies.
    pub fn load_mut(&mut self, companies: &[Company])
        requires
            old(self).wf(),
            old(self).num_of_companies + companies@.len() <= u64::MAX,
            forall|i: int| 0 <= i < companies@.len() ==> #[trigger] companies@[i].lots.wf(),
        ensures
            final(self).wf(),
            final(self).num_of_companies == old(self).num_of_companies + companies@.len(),
            final(self).market_values@ == old(self).market_values@ + companies@.map_values(|c: Company| c.market_value),
            final(self).lot_finalization_times@ == old(self).lot_finalization_times@ + companies@.map_values(|c: Company| c.lot_finalization_time),
            forall|i: int| 0 <= i < old(self).lots@.len() ==> #[trigger] final(self).lots@[i] == old(self).lots@[i],
            forall|i: int| 0 <= i < companies@.len() ==> {
                let l = #[trigger] final(self).lots@[old(self).lots@.len() + i];
                &&& l.strike_price == companies@[i].lots.strike_price
                &&& l.number_of_lots == companies@[i].lots.number_of_lots
                &&& l.lot_size == companies@[i].lots.lot_size
                &&& l.bets@ == companies@[i].lots.bets@
            },
    {
        let ghost n0 = self.lots@.len();
        let mut i: usize = 0;
        while i < companies.len()
            invariant
                i <= companies@.len(),
                self.wf(),
                self.num_of_companies == old(self).num_of_companies + i,
                old(self).num_of_companies + companies@.len() <= u64::MAX,
                n0 == old(self).lots@.len(),
                self.lots@.len() == n0 + i,
                forall|j: int| 0 <= j < companies@.len() ==> #[trigger] companies@[j].lots.wf(),
                self.market_values@ == old(self).market_values@ + companies@.take(i as int).map_values(|c: Company| c.market_value),
                self.lot_finalization_times@ == old(self).lot_finalization_times@ + companies@.take(i as int).map_values(|c: Company| c.lot_finalization_time),
                forall|j: int| 0 <= j < n0 ==> #[trigger] self.lots@[j] == old(self).lots@[j],
                forall|j: int| 0 <= j < i ==> {
                    let l = #[trigger] self.lots@[n0 + j];
                    &&& l.strike_price == companies@[j].lots.strike_price
                    &&& l.number_of_lots == companies@[j].lots.number_of_lots
                    &&& l.lot_size == companies@[j].lots.lot_size
                    &&& l.bets@ == companies@[j].lots.bets@
                },
            decreases companies.len() - i,
        {
            let company = &companies[i];
            let ghost pre_lots = self.lots@;
            self.market_values.push(company.market_value);
            let dup = company.lots.duplicate();
            self.lots.push(dup);
            assert(self.lots@ == pre_lots.push(dup));
            proof {
                assert forall|j: int| 0 <= j < self.lots@.len() implies #[trigger] self.lots@[j].wf() by {
                    if j < pre_lots.len() {
                        assert(self.lots@[j] == pre_lots[j]);
                    } else {
                        assert(companies@[i as int].lots.wf());
                    }
                }
                assert forall|j: int| 0 <= j < n0 implies #[trigger] self.lots@[j] == old(self).lots@[j] by {
                    assert(self.lots@[j] == pre_lots[j]);
                }
                assert forall|j: int| 0 <= j < i + 1 implies {
                    let l = #[trigger] self.lots@[n0 + j];
                    &&& l.strike_price == companies@[j].lots.strike_price
                    &&& l.number_of_lots == companies@[j].lots.number_of_lots
                    &&& l.lot_size == companies@[j].lots.lot_size
                    &&& l.bets@ == companies@[j].lots.bets@
                } by {
                    if j < i {
                        assert(self.lots@[n0 + j] == pre_lots[n0 + j]);
                    }
                }
            }
            self.lot_finalization_times.push(company.lot_finalization_time);
            self.num_of_companies = self.num_of_companies + 1;
            proof {
                assert(companies@.take(i + 1).map_values(|c: Company| c.market_value)
                    =~= companies@.take(i as int).map_values(|c: Company| c.market_value).push(companies@[i as int].market_value));
                assert(companies@.take(i + 1).map_values(|c: Company| c.lot_finalization_time)
                    =~= companies@.take(i as int).map_values(|c: Company| c.lot_finalization_time).push(companies@[i as int].lot_finalization_time));
            }
            i += 1;
        }
        proof { assert(companies@.take(companies@.len() as int) =~= companies@); }
    }

    /// The companies of the given records, in order.
    pub fn load(companies: &[Company]) -> (r: Self)
        requires
            companies@.len() <= u64::MAX,
            forall|i: int| 0 <= i < companies@.len() ==> #[trigger] companies@[i].lots.wf(),
        ensures
            r.wf(),
            r.num_of_companies == companies@.len(),
            r.market_values@ == companies@.map_values(|c: Company| c.market_value),
            r.lot_finalization_times@ == companies@.map_values(|c: Company| c.lot_finalization_time),
            forall|i: int| 0 <= i < companies@.len() ==> {
                let l = #[trigger] r.lots@[i];
                &&& l.strike_price == companies@[i].lots.strike_price
                &&& l.number_of_lots == companies@[i].lots.number_of_lots
                &&& l.lot_size == companies@[i].lots.lot_size
                &&& l.bets@ == companies@[i].lots.bets@
            },
    {
        let mut r = Companies::new();
        r.load_mut(companies);
        proof {
            assert forall|i: int| 0 <= i < companies@.len() implies {
                let l = #[trigger] r.lots@[i];
                &&& l.strike_price == companies@[i].lots.strike_price
                &&& l.number_of_lots == companies@[i].lots.number_of_lots
                &&& l.lot_size == companies@[i].lots.lot_size
                &&& l.bets@ == companies@[i].lots.bets@
            } by {
                assert(r.lots@[0 + i] == r.lots@[i]);
            }
            assert(r.market_values@ =~= companies@.map_values(|c: Company| c.market_value));
            assert(r.lot_finalization_times@ =~= companies@.map_values(|c: Company| c.lot_finalization_time));
        }
        r
    }

    /// The record of every company, in id order.
    pub fn save(&self) -> (r: Vec<Company>)
        requires
            self.wf(),
        ensures
            r@.len() == self.num_of_companies,
            forall|i: int| 0 <= i < r@.len() ==> {
                let c = #[trigger] r@[i];
                &&& c.id == i
                &&& c.market_value == self.market_values@[i]
                &&& c.lot_finalization_time == self.lot_finalization_times@[i]
                &&& c.lots.strike_price == self.lots@[i].strike_price
                &&& c.lots.number_of_lots == self.lots@[i].number_of_lots
                &&& c.lots.lot_size == self.lots@[i].lot_size
                &&& c.lots.bets@ == self.lots@[i].bets@
                &&& c.lots.total_num_of_bets == self.lots@[i].total_num_of_bets
            },
    {
        let mut companies: Vec<Company> = Vec::new();
        let mut id: usize = 0;
        while id < self.lots.len()
            invariant
                self.wf(),
                id <= self.lots@.len(),
                companies@.len() == id,
                forall|i: int| 0 <= i < id ==> {
                    let c = #[trigger] companies@[i];
                    &&& c.id == i
                    &&& c.market_value == self.market_values@[i]
                    &&& c.lot_finalization_time == self.lot_finalization_times@[i]
                    &&& c.lots.strike_price == self.lots@[i].strike_price
                    &&& c.lots.number_of_lots == self.lots@[i].number_of_lots
                    &&& c.lots.lot_size == self.lots@[i].lot_size
                    &&& c.lots.bets@ == self.lots@[i].bets@
                    &&& c.lots.total_num_of_bets == self.lots@[i].total_num_of_bets
                },
            decreases self.lots.len() - id,
        {
            companies.push(Company {
                id: id as u64,
                market_value: self.market_values[id],
                lots: self.lots[id].duplicate(),
                lot_finalization_time: self.lot_finalization_times[id],
            });
            id += 1;
        }
        companies
    }

    /// Current price of a company, if it exists.
    pub fn get_current_price(&self, company_id: u64) -> (r: Option<u64>)
        ensures
            company_id < self.market_values@.len() ==> r == Some(self.market_values@[company_id as int].current_price),
            company_id >= self.market_values@.len() ==> r is None,
    {
        if company_id < self.market_values.len() as u64 {
            Some(self.market_values[company_id as usize].current_price)
        } else {
            None
        }
    }

    /// The company ids.
    pub fn iter(&self) -> (r: std::ops::Range<u64>)
        ensures
            r.start == 0,
            r.end == self.num_of_companies,
    {
        0..self.num_of_companies
    }

    /// Whether a company has lots on offer.
    pub fn check_lot(&self, company_id: u64) -> (r: bool)
        requires
            self.wf(),
            company_id < self.num_of_companies,
        ensures
            r == (self.lots@[company_id as int].number_of_lots != 0),
    {
        let n = self.lots.len();
        assert(company_id < n);
        self.lots[company_id as usize].number_of_lots != 0
    }

    /// Whether the company of an order has lots on offer.
    pub fn check_lots_from_todotransaction(&self, todo_transaction: &TodoTransactions) -> (r: bool)
        requires
            self.wf(),
            todo_transaction.company_id < self.num_of_companies,
        ensures
            r == (self.lots@[todo_transaction.company_id as int].number_of_lots != 0),
    {
        self.check_lot(todo_transaction.company_id)
    }

    /// Offers `number_of_lots` lots of a company at `strike_price`.
    pub fn release_shares(&mut self, company_id: u64, number_of_lots: u64, strike_price: u64)
        requires
            old(self).wf(),
            company_id < old(self).num_of_companies,
        ensures
            final(self).wf(),
            final(self).num_of_companies == old(self).num_of_companies,
            final(self).market_values == old(self).market_values,
            final(self).lot_finalization_times == old(self).lot_finalization_times,
            final(self).lots@.len() == old(self).lots@.len(),
            forall|i: int| 0 <= i < old(self).lots@.len() && i != company_id ==> #[trigger] final(self).lots@[i] == old(self).lots@[i],
            final(self).lots@[company_id as int].number_of_lots == number_of_lots,
            final(self).lots@[company_id as int].strike_price == strike_price,
            final(self).lots@[company_id as int].lot_size == old(self).lots@[company_id as int].lot_size,
            final(self).lots@[company_id as int].bets@ == old(self).lots@[company_id as int].bets@,
    {
        let n = self.lots.len();
        assert(company_id < n);
        let i = company_id as usize;
        let mut lots = Lots::new(0, 0, 0);
        std::mem::swap(&mut lots, &mut self.lots[i]);
        let ghost pre_lots = self.lots@;
        lots.number_of_lots = number_of_lots;
        lots.strike_price = strike_price;
        std::mem::swap(&mut lots, &mut self.lots[i]);
        proof {
            assert forall|j: int| 0 <= j < self.lots@.len() implies #[trigger] self.lots@[j].wf() by {
                if j != i {
                    assert(self.lots@[j] == old(self).lots@[j]);
                }
            }
        }
    }
}


impl Companies {
    /// Bets the lots nearest to an order's quantity on the order's company,
    /// without touching the ledger; nothing happens while its lot size is zero.
    pub fn add_bet_from_todotransaction(&mut self, todo_transaction: &TodoTransactions) -> (r: Result<(), SimulationError>)
        requires
            old(self).wf(),
            todo_transaction.company_id < old(self).num_of_companies,
        ensures
            final(self).wf(),
            final(self).num_of_companies == old(self).num_of_companies,
            final(self).market_values == old(self).market_values,
            final(self).lot_finalization_times == old(self).lot_finalization_times,
            final(self).lots@.len() == old(self).lots@.len(),
            forall|i: int| 0 <= i < old(self).lots@.len() && i != todo_transaction.company_id ==> #[trigger] final(self).lots@[i] == old(self).lots@[i],
            ({
                let l = old(self).lots@[todo_transaction.company_id as int];
                let nl = final(self).lots@[todo_transaction.company_id as int];
                &&& nl.strike_price == l.strike_price
                &&& nl.number_of_lots == l.number_of_lots
                &&& nl.lot_size == l.lot_size
                &&& l.lot_size == 0 ==> r is Ok && nl.bets@ == l.bets@
                &&& l.lot_size != 0 ==> {
                    let n = lots_for_shares(todo_transaction.trade.number_of_shares, l.lot_size);
                    if l.blank() {
                        r is Ok && nl.bets@ == l.bets@
                    } else if l.total_num_of_bets + n > u64::MAX {
                        r == Err::<(), SimulationError>(SimulationError::Unspendable) && nl.bets@ == l.bets@
                    } else {
                        r is Ok && nl.bets@ == added_bet(l.bets@, todo_transaction.agent_id, n)
                    }
                }
            }),
    {
        let n = self.lots.len();
        assert(todo_transaction.company_id < n);
        let i = todo_transaction.company_id as usize;
        let mut lot = Lots::new(0, 0, 0);
        std::mem::swap(&mut lot, &mut self.lots[i]);
        assert(lot.wf());
        let r = if lot.lot_size == 0 {
            Ok(())
        } else {
            let q = todo_transaction.trade.number_of_shares;
            let size = lot.lot_size;
            proof {
                vstd::arithmetic::div_mod::lemma_fundamental_div_mod(q as int, size as int);
                if size >= 2 {
                    assert((q / size) * 2 <= q) by (nonlinear_arith)
                        requires size >= 2, q == size * (q / size) + q % size, q % size >= 0, q / size >= 0;
                }
            }
            let lots = q / size + if q % size >= size - q % size { 1u64 } else { 0u64 };
            lot.add_bet(todo_transaction.agent_id, lots)
        };
        std::mem::swap(&mut lot, &mut self.lots[i]);
        proof {
            assert forall|j: int| 0 <= j < self.lots@.len() implies #[trigger] self.lots@[j].wf() by {
                if j != i {
                    assert(self.lots@[j] == old(self).lots@[j]);
                }
            }
        }
        r
    }
}

} // verus!
