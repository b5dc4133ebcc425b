use crate::trade_house::{Trade, TradeAction};
use vstd::prelude::*;

verus! {

/// An exchange of shares for cash between two agents; made once per fill.
#[derive(Debug, Clone, Copy, PartialEq, Eq, Structural)]
pub struct Transaction {
    /// The agent that receives the shares.
    pub buyer_id: u64,
    /// The agent that receives the cash.
    pub seller_id: u64,
    pub company_id: u64,
    pub number_of_shares: u64,
    /// The price per share of the exchange.
    pub strike_price: u64,
}

impl Transaction {
    pub fn new(buyer_id: u64, seller_id: u64, company_id: u64, number_of_shares: u64, strike_price: u64) -> (r: Self)
        ensures
            r == (Transaction { buyer_id, seller_id, company_id, number_of_shares, strike_price }),
    {
        Self { buyer_id, seller_id, company_id, number_of_shares, strike_price }
    }
}

/// An exchange of shares for cash between an agent and a company.
#[derive(Debug, Clone, Copy, PartialEq, Eq, Structural)]
pub struct CompanyTransaction {
    pub buyer_agent_id: u64,
    pub seller_company_id: u64,
    pub number_of_shares: u64,
    pub strike_price: u64,
}

/// An order request: an agent wants to buy or sell shares of a company at a
/// limit price.
#[derive(Debug, Clone, Copy, PartialEq, Eq, Structural)]
pub struct TodoTransactions {
    pub agent_id: u64,
    pub company_id: u64,
    pub strike_price: u64,
    pub action: TradeAction,
    pub trade: Trade,
}

/// One order request.
pub type TodoTransaction = TodoTransactions;

} // verus!
