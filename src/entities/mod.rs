use crate::SimulationError;
use vstd::prelude::*;

pub mod agents;
pub mod companies;

verus! {

/// Cash of each agent, indexed by agent id.
#[derive(Debug)]
pub struct Balances(pub Vec<u64>);

impl View for Balances {
    type V = Seq<u64>;

    open spec fn view(&self) -> Seq<u64> {
        self.0@
    }
}

/// What `Balances::get` returns for a ledger `b`.
pub open spec fn balance_lookup(b: Seq<u64>, agent_id: u64) -> Result<u64, SimulationError> {
    if agent_id < b.len() {
        Ok(b[agent_id as int])
    } else {
        Err(SimulationError::AgentNotFound(agent_id))
    }
}

/// The ledger after adding the signed `amount` to one balance, with the result of
/// the operation: it fails, leaving the ledger as it was, when the agent is
/// unknown or the new balance would be negative or beyond `u64::MAX`.
pub open spec fn balance_add(b: Seq<u64>, agent_id: u64, amount: int) -> (Seq<u64>, Result<(), SimulationError>) {
    if agent_id >= b.len() {
        (b, Err(SimulationError::AgentNotFound(agent_id)))
    } else if b[agent_id as int] + amount < 0 || b[agent_id as int] + amount > u64::MAX {
        (b, Err(SimulationError::Unspendable))
    } else {
        (b.update(agent_id as int, (b[agent_id as int] + amount) as u64), Ok(()))
    }
}

impl Balances {
    /// An empty ledger.
    pub fn new() -> (r: Self)
        ensures
            r@ == Seq::<u64>::empty(),
    {
        Balances(Vec::new())
    }

    /// Cash of `agent_id`.
    pub fn get(&self, agent_id: u64) -> (r: Result<u64, SimulationError>)
        ensures
            r == balance_lookup(self@, agent_id),
    {
        if agent_id < self.0.len() as u64 {
            Ok(self.0[agent_id as usize])
        } else {
            Err(SimulationError::AgentNotFound(agent_id))
        }
    }

    /// Adds a signed amount to the cash of `agent_id`, atomically.
    pub fn add(&mut self, agent_id: u64, amount: i128) -> (r: Result<(), SimulationError>)
        ensures
            (final(self)@, r) == balance_add(old(self)@, agent_id, amount as int),
    {
        if agent_id >= self.0.len() as u64 {
            return Err(SimulationError::AgentNotFound(agent_id));
        }
        let i = agent_id as usize;
        let result = match (self.0[i] as i128).checked_add(amount) {
            Some(result) => result,
            None => {
                return Err(SimulationError::Unspendable);
            },
        };
        if result < 0 || result > u64::MAX as i128 {
            return Err(SimulationError::Unspendable);
        }
        self.0.set(i, result as u64);
        Ok(())
    }

    /// Appends a new agent with the given cash.
    pub fn push(&mut self, balance: u64)
        ensures
            final(self)@ == old(self)@.push(balance),
    {
        self.0.push(balance);
    }
}

} // verus!
