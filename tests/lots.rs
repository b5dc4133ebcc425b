use stocks::entities::agents::{Agent, Agents};
use stocks::entities::companies::{Companies, Company, Lots};
use stocks::trade_house::{Trade, TradeAction};
use stocks::transaction::TodoTransactions;
use stocks::SimulationError;

fn two_agents() -> Agents {
    Agents::load(&[Agent::new(0, 10_000, &[], &[]), Agent::new(1, 10_000, &[], &[])])
}

#[test]
fn bets_escrow_cash_and_withdrawals_refund_it() {
    let mut agents = two_agents();
    let mut lots = Lots::new(3, 100, 10);
    assert_eq!(lots.add_bet_and_update_agent(&mut agents, 0, 4), Ok(()));
    assert_eq!(lots.add_bet_and_update_agent(&mut agents, 0, 1), Ok(()));
    assert_eq!(agents.balances.get(0), Ok(10_000 - 150));
    assert_eq!(lots.get_bet(0), 5);
    assert_eq!(lots.total_num_of_bets, 5);
    assert_eq!(lots.add_bet_and_update_agent(&mut agents, 1, 400), Err(SimulationError::Unspendable));
    assert_eq!(lots.add_bet_and_update_agent(&mut agents, 9, 1), Err(SimulationError::AgentNotFound(9)));
    assert_eq!(lots.remove_bet_and_update_agent(&mut agents, 1, 1), Err(SimulationError::AgentNotFound(1)));
    assert_eq!(lots.remove_bet_and_update_agent(&mut agents, 0, 6), Err(SimulationError::Unspendable));
    assert_eq!(lots.remove_bet_and_update_agent(&mut agents, 0, 2), Ok(()));
    assert_eq!(agents.balances.get(0), Ok(10_000 - 90));
    assert_eq!(lots.get_bet(0), 3);
    assert_eq!(lots.remove_bet_and_update_agent(&mut agents, 0, 3), Ok(()));
    assert_eq!(lots.get_bet(0), 0);
    assert!(lots.bets.is_empty());
    assert_eq!(lots.total_num_of_bets, 0);
}

#[test]
fn blank_issuance_ignores_bets() {
    let mut agents = two_agents();
    let mut lots = Lots::new(0, 100, 10);
    assert!(lots.is_blank());
    assert_eq!(lots.add_bet_and_update_agent(&mut agents, 0, 4), Ok(()));
    assert_eq!(lots.get_bet(0), 0);
    assert_eq!(agents.balances.get(0), Ok(10_000));
    assert_eq!(lots.remove_bet(0, 1), Ok(()));
}

#[test]
fn exact_compression_shrinks_lots_and_refunds() {
    let mut agents = two_agents();
    let mut lots = Lots::new(3, 100, 10);
    lots.add_bet_and_update_agent(&mut agents, 0, 30).unwrap();
    lots.add_bet_and_update_agent(&mut agents, 1, 20).unwrap();
    assert_eq!(lots.compress_shares(&mut agents), Ok(()));
    assert_eq!(lots.lot_size, 5);
    assert_eq!(lots.strike_price, 6);
    // each lot lost 5 shares worth 3 each
    assert_eq!(agents.balances.get(0), Ok(10_000 - 900 + 450));
    assert_eq!(agents.balances.get(1), Ok(10_000 - 600 + 300));
}

#[test]
fn inexact_compression_is_undoable() {
    let mut agents = two_agents();
    let mut lots = Lots::new(3, 100, 10);
    lots.add_bet_and_update_agent(&mut agents, 0, 30).unwrap();
    assert_eq!(lots.compress_shares(&mut agents), Err(SimulationError::UnDoable));
    assert_eq!((lots.lot_size, lots.strike_price), (10, 3));
    let mut none = Lots::new(3, 100, 10);
    assert_eq!(none.compress_shares(&mut agents), Err(SimulationError::UnDoable));
}

#[test]
fn distribution_serves_largest_bets_first_and_refunds_the_rest() {
    let mut agents = Agents::load(&[
        Agent::new(0, 1_000, &[], &[]),
        Agent::new(1, 1_000, &[], &[]),
        Agent::new(2, 1_000, &[], &[]),
    ]);
    let mut lots = Lots::new(1, 10, 2);
    lots.add_bet_and_update_agent(&mut agents, 0, 3).unwrap();
    lots.add_bet_and_update_agent(&mut agents, 1, 6).unwrap();
    lots.add_bet_and_update_agent(&mut agents, 2, 3).unwrap();
    assert_eq!(lots.distribute_shares(4, &mut agents), Ok(()));
    assert_eq!(agents.holdings.get(1, 4), 12);
    assert_eq!(agents.holdings.get(0, 4), 6);
    assert_eq!(agents.holdings.get(2, 4), 0);
    assert_eq!(agents.balances.get(2), Ok(1_000));
    assert_eq!(lots.number_of_lots, 1);
    assert!(lots.bets.is_empty());
    assert_eq!(lots.total_num_of_bets, 0);
}

#[test]
fn finalize_compresses_then_distributes() {
    let mut agents = two_agents();
    let mut lots = Lots::new(2, 40, 10);
    lots.add_bet_and_update_agent(&mut agents, 0, 10).unwrap();
    lots.add_bet_and_update_agent(&mut agents, 1, 10).unwrap();
    assert_eq!(lots.finalize(0, &mut agents), Ok(()));
    assert_eq!(lots.lot_size, 5);
    assert_eq!(agents.holdings.get(0, 0), 50);
    assert_eq!(agents.holdings.get(1, 0), 50);
    assert_eq!(agents.balances.get(0), Ok(10_000 - 200 + 100));
    assert_eq!(lots.number_of_lots, 20);
}

#[test]
fn companies_bets_and_records() {
    let mut companies = Companies::load(&[Company::new(0, 5, (2, 10, 10)), Company::new(1, 8, (0, 0, 0))]);
    assert_eq!(companies.get_current_price(1), Some(8));
    assert_eq!(companies.get_current_price(2), None);
    assert!(companies.check_lot(0));
    assert!(!companies.check_lot(1));
    let t = TodoTransactions { agent_id: 5, company_id: 0, strike_price: 1, action: TradeAction::Buy, trade: Trade::new(14) };
    assert!(companies.check_lots_from_todotransaction(&t));
    assert_eq!(companies.add_bet_from_todotransaction(&t), Ok(()));
    assert_eq!(companies.lots[0].get_bet(5), 1);
    companies.release_shares(1, 30, 4);
    assert!(companies.check_lot(1));
    let saved = companies.save();
    assert_eq!(saved.len(), 2);
    assert_eq!(saved[1].lots.number_of_lots, 30);
    assert_eq!(saved[0].lots.bets, vec![(5, 1)]);
    assert_eq!(saved[0].market_value.current_price, 5);
    assert!(Lots::new(1, 2, 3).fits_agent_price(3, 3));
    assert!(!Lots::new(1, 2, 3).fits_agent_price(4, 3));
}

#[test]
fn distribution_reports_a_bet_it_cannot_settle() {
    let mut agents = Agents::load(&[Agent::new(0, 1_000, &[], &[])]);
    let mut lots = Lots::new(1, 2, 1);
    // bets recorded without escrow, for an agent the ledger does not know
    lots.add_bet(7, 5).unwrap();
    lots.add_bet(0, 2).unwrap();
    assert_eq!(lots.distribute_shares(3, &mut agents), Err(SimulationError::Unspendable));
    assert_eq!(agents.holdings.get(0, 3), 2);
    assert!(lots.bets.is_empty());
}
