use stocks::entities::agents::{combine, get_first, get_second, Agent, Agents, Holdings, Timeline};
use stocks::entities::Balances;
use stocks::trade_house::{FailedOffer, Offer, Trade, TradeAction};
use stocks::transaction::TodoTransactions;
use stocks::{max, min, SimulationError, TIMELINE_SIZE_LIMIT};
use std::collections::HashMap;

#[test]
fn pair_key_packs_agent_high_and_company_low() {
    let k = combine(3, 7);
    assert_eq!(k, (3u128 << 64) | 7);
    assert_eq!(get_first(k), 3);
    assert_eq!(get_second(k), 7);
    let k = combine(u64::MAX, 0);
    assert_eq!((get_first(k), get_second(k)), (u64::MAX, 0));
    assert_ne!(combine(1, 2), combine(2, 1));
}

#[test]
fn balance_add_is_atomic() {
    let mut b = Balances::new();
    b.push(10);
    assert_eq!(b.add(0, -11), Err(SimulationError::Unspendable));
    assert_eq!(b.get(0), Ok(10));
    assert_eq!(b.add(0, -10), Ok(()));
    assert_eq!(b.get(0), Ok(0));
    assert_eq!(b.add(0, u64::MAX as i128 + 1), Err(SimulationError::Unspendable));
    assert_eq!(b.add(0, 25), Ok(()));
    assert_eq!(b.get(0), Ok(25));
    assert_eq!(b.add(4, 1), Err(SimulationError::AgentNotFound(4)));
    assert_eq!(b.get(4), Err(SimulationError::AgentNotFound(4)));
}

#[test]
fn holdings_push_and_pop() {
    let mut h = Holdings::new();
    assert_eq!(h.get(1, 2), 0);
    h.push(1, 2, 30);
    h.push(1, 2, 5);
    assert_eq!(h.get(1, 2), 35);
    assert_eq!(h.get_u128(combine(1, 2)), 35);
    assert_eq!(h.pop(1, 2, 36), Err(SimulationError::Unspendable));
    assert_eq!(h.get(1, 2), 35);
    assert_eq!(h.pop(1, 2, 35), Ok(()));
    assert_eq!(h.get(1, 2), 0);
    assert_eq!(h.pop(2, 1, 1), Err(SimulationError::Unspendable));
    h.insert(2, 1, 9);
    assert_eq!(h.get(2, 1), 9);
}

#[test]
fn max_and_min() {
    assert_eq!(max(3, 9), 9);
    assert_eq!(min(3, 9), 3);
    assert_eq!(max(4, 4), 4);
}

#[test]
fn load_and_save_round_trip() {
    let records = [
        Agent::new(0, 40, &[(0, 5), (3, 7)], &[(3, TradeAction::Sell)]),
        Agent::new(1, 60, &[], &[]),
    ];
    let agents = Agents::load(&records);
    assert_eq!(agents.num_of_agents, 2);
    assert_eq!(agents.holdings.get(0, 3), 7);
    let saved = agents.save().unwrap();
    assert_eq!(saved.len(), 2);
    assert_eq!(saved[0].id, 0);
    assert_eq!(saved[0].balance, 40);
    let mut expected = HashMap::new();
    expected.insert(0, 5);
    expected.insert(3, 7);
    assert_eq!(saved[0].holding.0, expected);
    assert_eq!(saved[0].preferences.0.data, vec![(3, TradeAction::Sell)]);
    assert!(saved[1].holding.0.is_empty());
}

#[test]
fn escrow_and_settlement_errors() {
    let mut agents = Agents::load(&[Agent::new(0, 10, &[], &[])]);
    let t = TodoTransactions { agent_id: 3, company_id: 0, strike_price: 1, action: TradeAction::Buy, trade: Trade::new(1) };
    assert_eq!(agents.deduct_assets_from_todotransaction(&t), Err(SimulationError::AgentNotFound(3)));
    let tx = stocks::transaction::Transaction::new(0, 5, 0, 1, 1);
    assert_eq!(agents.exchange_assets_from_transaction(&tx), Err(SimulationError::AgentNotFound(5)));
    assert_eq!(agents.can_buy(0, 2, 5), Ok(true));
    assert_eq!(agents.can_buy(0, 2, 6), Ok(false));
    assert_eq!(agents.can_buy(1, 2, 6), Err(SimulationError::AgentNotFound(1)));
    assert!(agents.can_sell(combine(0, 0), 0));
    assert!(!agents.can_sell(combine(0, 0), 1));
}

#[test]
fn created_agents_start_empty() {
    let mut agents = Agents::new();
    assert_eq!(agents.create_agents(3), vec![0, 1, 2]);
    assert_eq!(agents.create_agents(2), vec![3, 4]);
    assert_eq!(agents.balances.get(4), Ok(0));
    assert_eq!(agents.give_assets(4, 2, 50, 6), Ok(()));
    assert_eq!(agents.balances.get(4), Ok(50));
    assert_eq!(agents.holdings.get(4, 2), 6);
    assert_eq!(agents.give_assets(9, 2, 50, 6), Err(SimulationError::AgentNotFound(9)));
    assert_eq!(agents.introduce_new_agents(&vec![7, 8], 3), Err(SimulationError::NoData));
    assert_eq!(agents.introduce_new_agents(&vec![7, 8], 2), Ok(()));
    assert_eq!(agents.num_of_agents, 7);
    assert_eq!(agents.balances.get(6), Ok(8));
}

#[test]
fn expired_offers_are_refunded_and_queued_for_retry() {
    let mut agents = Agents::load(&[Agent::new(0, 0, &[], &[]), Agent::new(1, 0, &[], &[])]);
    let mut buy = Offer::new(0, 8, Trade::new(10));
    buy.lifetime = 0;
    let mut sell = Offer::new(1, 100, Trade::new(4));
    sell.lifetime = 0;
    assert_eq!(agents.refund_expired(2, &vec![FailedOffer(buy, TradeAction::Buy), FailedOffer(sell, TradeAction::Sell)]), Ok(()));
    assert_eq!(agents.balances.get(0), Ok(80));
    assert_eq!(agents.holdings.get(1, 2), 4);
    assert_eq!(agents.try_offers.len(), 2);
    assert_eq!(agents.try_offers[0].price, 10);
    assert_eq!(agents.try_offers[1].price, 75);
    let mut out = Vec::new();
    agents.try_failed_offers(&[true, true], &mut out, &Trade::new(2)).unwrap();
    assert_eq!(out.len(), 2);
    assert_eq!(out[0].action, TradeAction::Buy);
    assert_eq!(out[0].strike_price, 10);
    assert_eq!(out[1].action, TradeAction::Sell);
    assert_eq!(out[1].company_id, 2);
    let mut none = Vec::new();
    agents.try_failed_offers(&[false, true], &mut none, &Trade::new(5)).unwrap();
    assert_eq!(none.len(), 0);
}

#[test]
fn retry_entry_is_replaced_per_pair() {
    let mut agents = Agents::new();
    agents.add_failed_offer(1, 2, 100, &TradeAction::Buy);
    agents.add_failed_offer(1, 2, 40, &TradeAction::Sell);
    assert_eq!(agents.try_offers.len(), 1);
    assert_eq!(agents.try_offers[0].price, 30);
    assert_eq!(agents.try_offers[0].action, TradeAction::Sell);
}

#[test]
fn timeline_overwrites_oldest_when_full() {
    let mut t = Timeline::new();
    let first: Vec<(u64, TradeAction)> = (0..TIMELINE_SIZE_LIMIT as u64).map(|c| (c, TradeAction::Buy)).collect();
    t.add(&first);
    assert_eq!(t.data.len(), TIMELINE_SIZE_LIMIT);
    assert_eq!(t.target_index, 0);
    t.add(&[(7000, TradeAction::Sell), (7001, TradeAction::Sell)]);
    assert_eq!(t.data.len(), TIMELINE_SIZE_LIMIT);
    assert_eq!(t.data[0], (7000, TradeAction::Sell));
    assert_eq!(t.data[1], (7001, TradeAction::Sell));
    assert_eq!(t.data[2], (2, TradeAction::Buy));
    assert_eq!(t.target_index, 2);
}

#[test]
fn preferences_record_interest() {
    let mut agents = Agents::new();
    agents.create_agents(2);
    assert_eq!(agents.preferences.add(1, 4, 3), Ok(()));
    assert_eq!(agents.preferences.sub(1, 5, 1), Ok(()));
    assert_eq!(agents.preferences.0[1].data, vec![(4, TradeAction::Buy), (4, TradeAction::Buy), (4, TradeAction::Buy), (5, TradeAction::Sell)]);
    assert_eq!(agents.preferences.add(2, 4, 3), Err(SimulationError::AgentNotFound(2)));
    assert_eq!(agents.set_preferences_for_all_companies(&[1, 0, 2], 0), Ok(()));
    assert_eq!(agents.preferences.0[0].data, vec![(0, TradeAction::Buy), (2, TradeAction::Buy), (2, TradeAction::Buy)]);
}

#[test]
fn timeline_sampling_uses_the_draw() {
    let mut t = Timeline::new();
    assert_eq!(t.get_rng(3), Err(SimulationError::NoData));
    t.add(&[(10, TradeAction::Buy), (11, TradeAction::Sell), (12, TradeAction::Buy)]);
    assert_eq!(t.get_rng(4), Ok((11, TradeAction::Sell)));
    assert_eq!(t.recency_bias(5, 2), Ok((12, TradeAction::Buy)));
    assert_eq!(t.recency_bias(2, 1), Ok((11, TradeAction::Sell)));
    assert_eq!(t.recency_bias(0, 1), Err(SimulationError::NoData));
    let mut agents = Agents::new();
    agents.create_agents(1);
    agents.preferences.add(0, 6, 2).unwrap();
    assert_eq!(agents.preferences.get_preferred_random(0, 9), Ok((6, TradeAction::Buy)));
    assert_eq!(agents.preferences.get_preferred_random(1, 9), Err(SimulationError::AgentNotFound(1)));
}

#[test]
fn refund_to_unknown_offerer_is_reported() {
    let mut agents = Agents::load(&[Agent::new(0, 5, &[], &[])]);
    let mut buy = Offer::new(9, 3, Trade::new(2));
    buy.lifetime = 0;
    let mut own = Offer::new(0, 3, Trade::new(2));
    own.lifetime = 0;
    let r = agents.refund_expired(1, &vec![FailedOffer(buy, TradeAction::Buy), FailedOffer(own, TradeAction::Buy)]);
    assert_eq!(r, Err(SimulationError::Unspendable));
    assert_eq!(agents.balances.get(0), Ok(11));
}
