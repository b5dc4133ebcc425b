use stocks::entities::agents::{Agent, Agents};
use stocks::entities::companies::{Companies, Company, MarketValue};
use stocks::market::{ActionState, Market, TradeDraw};
use stocks::trade_house::{Trade, TradeAction};
use stocks::transaction::{TodoTransactions, Transaction};
use stocks::SimulationError;

fn order(agent_id: u64, action: TradeAction, price: u64, shares: u64) -> TodoTransactions {
    TodoTransactions { agent_id, company_id: 0, strike_price: price, action, trade: Trade::new(shares) }
}

fn one_company() -> Companies {
    Companies::load(&[Company::new(0, 0, (0, 0, 0))])
}

fn cash_in_play(agents: &Agents, market: &Market, n: u64) -> u64 {
    let mut total = 0;
    for i in 0..n {
        total += agents.balances.get(i).unwrap();
    }
    if let Some(book) = market.house.get_trade_offers(0) {
        for o in book.buyer_offers.iter() {
            total += o.strike_price * o.data.number_of_shares;
        }
    }
    total
}

fn shares_in_play(agents: &Agents, market: &Market, n: u64) -> u64 {
    let mut total = 0;
    for i in 0..n {
        total += agents.holdings.get(i, 0);
    }
    if let Some(book) = market.house.get_trade_offers(0) {
        for o in book.seller_offers.iter() {
            total += o.data.number_of_shares;
        }
    }
    total
}

#[test]
fn end_to_end_buy_then_matching_sell() {
    let mut agents = Agents::load(&[Agent::new(0, 100, &[], &[]), Agent::new(1, 0, &[(0, 100)], &[])]);
    let mut companies = one_company();
    let mut market = Market::new();
    let r = market.trade(false, &order(0, TradeAction::Buy, 1, 100), &mut agents, &mut companies, 0);
    assert_eq!(r, Ok(Ok(ActionState::AddedToOffers)));
    let r = market.trade(false, &order(1, TradeAction::Sell, 1, 100), &mut agents, &mut companies, 0);
    assert_eq!(r, Ok(Ok(ActionState::InstantlyResolved(Transaction::new(0, 1, 0, 100, 1)))));
    assert_eq!(agents.balances.get(0), Ok(0));
    assert_eq!(agents.holdings.get(0, 0), 100);
    assert_eq!(agents.balances.get(1), Ok(100));
    assert_eq!(agents.holdings.get(1, 0), 0);
    let book = market.house.get_trade_offers(0).unwrap();
    assert_eq!(book.buyer_offers.len(), 0);
    assert_eq!(book.seller_offers.len(), 0);
}

#[test]
fn partial_fill_rests_the_remainder_at_the_limit() {
    let mut agents = Agents::load(&[Agent::new(0, 1000, &[], &[]), Agent::new(1, 0, &[(0, 100)], &[])]);
    let mut companies = one_company();
    let mut market = Market::new();
    market.trade(false, &order(1, TradeAction::Sell, 2, 100), &mut agents, &mut companies, 0).unwrap().unwrap();
    let r = market.trade(false, &order(0, TradeAction::Buy, 3, 150), &mut agents, &mut companies, 0);
    assert_eq!(r, Ok(Ok(ActionState::PartiallyResolved(Transaction::new(0, 1, 0, 100, 2)))));
    let book = market.house.get_trade_offers(0).unwrap();
    assert_eq!(book.seller_offers.len(), 0);
    assert_eq!(book.buyer_offers.len(), 1);
    assert_eq!(book.buyer_offers[0].offerer_id, 0);
    assert_eq!(book.buyer_offers[0].strike_price, 3);
    assert_eq!(book.buyer_offers[0].data.number_of_shares, 50);
    // paid 2 per filled share, 3 per share still escrowed
    assert_eq!(agents.balances.get(0), Ok(1000 - 200 - 150));
    assert_eq!(agents.balances.get(1), Ok(200));
    assert_eq!(agents.holdings.get(0, 0), 100);
}

#[test]
fn larger_resting_offer_keeps_its_remainder() {
    let mut agents = Agents::load(&[Agent::new(0, 1000, &[], &[]), Agent::new(1, 0, &[(0, 100)], &[])]);
    let mut companies = one_company();
    let mut market = Market::new();
    market.trade(false, &order(1, TradeAction::Sell, 4, 100), &mut agents, &mut companies, 0).unwrap().unwrap();
    let r = market.trade(false, &order(0, TradeAction::Buy, 4, 30), &mut agents, &mut companies, 0);
    assert_eq!(r, Ok(Ok(ActionState::InstantlyResolved(Transaction::new(0, 1, 0, 30, 4)))));
    let book = market.house.get_trade_offers(0).unwrap();
    assert_eq!(book.seller_offers.len(), 1);
    assert_eq!(book.seller_offers[0].offerer_id, 1);
    assert_eq!(book.seller_offers[0].strike_price, 4);
    assert_eq!(book.seller_offers[0].data.number_of_shares, 70);
    assert_eq!(agents.balances.get(0), Ok(880));
    assert_eq!(agents.balances.get(1), Ok(120));
}

#[test]
fn cheaper_sell_is_matched_and_buyer_refunded_the_difference() {
    let mut agents = Agents::load(&[Agent::new(0, 100, &[], &[]), Agent::new(1, 0, &[(0, 10)], &[])]);
    let mut companies = one_company();
    let mut market = Market::new();
    market.trade(false, &order(1, TradeAction::Sell, 5, 10), &mut agents, &mut companies, 0).unwrap().unwrap();
    let r = market.trade(false, &order(0, TradeAction::Buy, 7, 10), &mut agents, &mut companies, 0);
    assert_eq!(r, Ok(Ok(ActionState::InstantlyResolved(Transaction::new(0, 1, 0, 10, 5)))));
    assert_eq!(agents.balances.get(0), Ok(50));
    assert_eq!(agents.balances.get(1), Ok(50));
}

#[test]
fn worse_priced_candidates_are_reported_and_nothing_changes() {
    let mut agents = Agents::load(&[Agent::new(0, 100, &[], &[]), Agent::new(1, 0, &[(0, 10)], &[])]);
    let mut companies = one_company();
    let mut market = Market::new();
    market.trade(false, &order(1, TradeAction::Sell, 10, 10), &mut agents, &mut companies, 0).unwrap().unwrap();
    let r = market.trade(false, &order(0, TradeAction::Buy, 8, 5), &mut agents, &mut companies, 5);
    assert_eq!(r, Ok(Err(vec![0])));
    assert_eq!(agents.balances.get(0), Ok(100));
    assert_eq!(market.house.get_trade_offers(0).unwrap().buyer_offers.len(), 0);
    // a concession takes the candidate at its own price
    let r = market.concede(&order(0, TradeAction::Buy, 8, 5), &mut agents, 0);
    assert_eq!(r, Ok(Ok(ActionState::InstantlyResolved(Transaction::new(0, 1, 0, 5, 10)))));
    assert_eq!(agents.balances.get(0), Ok(50));
    assert_eq!(agents.balances.get(1), Ok(50));
    assert_eq!(agents.holdings.get(0, 0), 5);
    assert_eq!(market.house.get_trade_offers(0).unwrap().seller_offers[0].data.number_of_shares, 5);
}

#[test]
fn concession_without_offer_is_no_data() {
    let mut agents = Agents::load(&[Agent::new(0, 100, &[], &[])]);
    let mut market = Market::new();
    let r = market.concede(&order(0, TradeAction::Buy, 8, 5), &mut agents, 0);
    assert_eq!(r, Err(SimulationError::NoData));
}

#[test]
fn out_of_range_offer_rests() {
    let mut agents = Agents::load(&[Agent::new(0, 100, &[], &[]), Agent::new(1, 0, &[(0, 10)], &[])]);
    let mut companies = one_company();
    let mut market = Market::new();
    market.trade(false, &order(1, TradeAction::Sell, 20, 10), &mut agents, &mut companies, 0).unwrap().unwrap();
    let r = market.trade(false, &order(0, TradeAction::Buy, 8, 5), &mut agents, &mut companies, 5);
    assert_eq!(r, Ok(Ok(ActionState::AddedToOffers)));
    assert_eq!(agents.balances.get(0), Ok(60));
}

#[test]
fn escrow_failures_change_nothing() {
    let mut agents = Agents::load(&[Agent::new(0, 10, &[], &[]), Agent::new(1, 0, &[(0, 3)], &[])]);
    let mut companies = one_company();
    let mut market = Market::new();
    assert_eq!(
        market.trade(false, &order(0, TradeAction::Buy, 2, 6), &mut agents, &mut companies, 0),
        Err(SimulationError::Unspendable)
    );
    assert_eq!(
        market.trade(false, &order(1, TradeAction::Sell, 2, 4), &mut agents, &mut companies, 0),
        Err(SimulationError::Unspendable)
    );
    assert_eq!(
        market.trade(false, &order(7, TradeAction::Buy, 2, 1), &mut agents, &mut companies, 0),
        Err(SimulationError::AgentNotFound(7))
    );
    assert!(market.house.get_trade_offers(0).is_none());
    assert_eq!(agents.balances.get(0), Ok(10));
    assert_eq!(agents.holdings.get(1, 0), 3);
}

#[test]
fn cash_and_shares_are_conserved_across_trades() {
    let mut agents = Agents::load(&[
        Agent::new(0, 500, &[(0, 40)], &[]),
        Agent::new(1, 300, &[(0, 60)], &[]),
        Agent::new(2, 200, &[], &[]),
    ]);
    let mut companies = one_company();
    let mut market = Market::new();
    let cash = cash_in_play(&agents, &market, 3);
    let shares = shares_in_play(&agents, &market, 3);
    let orders = [
        order(0, TradeAction::Sell, 3, 20),
        order(2, TradeAction::Buy, 4, 30),
        order(1, TradeAction::Sell, 4, 25),
        order(1, TradeAction::Buy, 5, 10),
        order(2, TradeAction::Sell, 2, 15),
        order(0, TradeAction::Buy, 6, 40),
    ];
    for o in orders.iter() {
        let _ = market.trade(false, o, &mut agents, &mut companies, 1);
        assert_eq!(cash_in_play(&agents, &market, 3), cash);
        assert_eq!(shares_in_play(&agents, &market, 3), shares);
    }
}

#[test]
fn willing_buyer_bets_on_open_lots() {
    let mut agents = Agents::load(&[Agent::new(0, 1000, &[], &[])]);
    let mut companies = Companies::load(&[Company::new(0, 0, (2, 10, 10))]);
    let mut market = Market::new();
    let r = market.trade(true, &order(0, TradeAction::Buy, 3, 25), &mut agents, &mut companies, 0);
    assert_eq!(r, Ok(Ok(ActionState::AddedToLots)));
    assert_eq!(companies.lots[0].get_bet(0), 3);
    assert_eq!(agents.balances.get(0), Ok(1000 - 60));
    assert!(market.house.get_trade_offers(0).is_none());
    // unwilling buyers go to the book
    let r = market.trade(false, &order(0, TradeAction::Buy, 3, 25), &mut agents, &mut companies, 0);
    assert_eq!(r, Ok(Ok(ActionState::AddedToOffers)));
}

#[test]
fn price_bar_summarises_fills() {
    let mut market = Market::new();
    let mut bar = MarketValue::new();
    bar.current_price = 7;
    bar.overall_movement_end = 9;
    market.tick_individual_company(0, &mut bar);
    assert_eq!((bar.highest_price, bar.lowest_price, bar.current_price), (7, 7, 7));
    market.add_transaction(0, 3);
    market.add_transaction(0, 6);
    market.add_transaction(0, 4);
    market.add_transaction(1, 100);
    market.tick_individual_company(0, &mut bar);
    assert_eq!(bar.highest_price, 6);
    assert_eq!(bar.lowest_price, 3);
    assert_eq!(bar.current_price, 4);
    assert_eq!(bar.overall_movement_start, 9);
    assert_eq!(bar.overall_movement_end, 4);
    // the buffer was cleared: the next bar is flat
    market.tick_individual_company(0, &mut bar);
    assert_eq!((bar.highest_price, bar.lowest_price), (4, 4));
    let mut other = MarketValue::new();
    market.tick_individual_company(1, &mut other);
    assert_eq!(other.current_price, 100);
}

#[test]
fn batch_concedes_when_drawn() {
    let mut agents = Agents::load(&[Agent::new(0, 100, &[], &[]), Agent::new(1, 0, &[(0, 10)], &[])]);
    let mut companies = one_company();
    let mut market = Market::new();
    let orders = [order(1, TradeAction::Sell, 10, 10), order(0, TradeAction::Buy, 8, 5)];
    let draws = [
        TradeDraw { accept_lots: false, concede: false, pick: 0 },
        TradeDraw { accept_lots: false, concede: true, pick: 3 },
    ];
    market.rand_do_trade(&mut agents, &mut companies, &orders, &draws, 5);
    assert_eq!(agents.holdings.get(0, 0), 5);
    assert_eq!(agents.balances.get(1), Ok(50));
}

#[test]
fn expired_offer_escrow_is_refunded() {
    let mut agents = Agents::load(&[Agent::new(0, 100, &[], &[]), Agent::new(1, 0, &[(0, 30)], &[])]);
    let mut companies = one_company();
    let mut market = Market::new();
    market.trade(false, &order(0, TradeAction::Buy, 2, 40), &mut agents, &mut companies, 0).unwrap().unwrap();
    market.trade(false, &order(1, TradeAction::Sell, 9, 30), &mut agents, &mut companies, 0).unwrap().unwrap();
    assert_eq!(agents.balances.get(0), Ok(20));
    assert_eq!(agents.holdings.get(1, 0), 0);
    for _ in 1..stocks::OFFER_LIFETIME {
        let (trades, options) = market.tick_failures();
        assert!(trades.is_empty() && options.is_empty());
    }
    let (trades, options) = market.tick_failures();
    assert_eq!(trades[&0].len(), 2);
    agents.alert_agents(&trades, &options).unwrap();
    assert_eq!(agents.balances.get(0), Ok(100));
    assert_eq!(agents.holdings.get(1, 0), 30);
    assert_eq!(agents.try_offers.len(), 2);
    let book = market.house.get_trade_offers(0).unwrap();
    assert!(book.buyer_offers.is_empty() && book.seller_offers.is_empty());
}

#[test]
fn willing_buyer_without_the_escrow_fails_first() {
    let mut agents = Agents::load(&[Agent::new(0, 50, &[], &[])]);
    let mut companies = Companies::load(&[Company::new(0, 0, (1, 10, 10))]);
    let mut market = Market::new();
    let r = market.trade(true, &order(0, TradeAction::Buy, 3, 25), &mut agents, &mut companies, 0);
    assert_eq!(r, Err(SimulationError::Unspendable));
    assert_eq!(companies.lots[0].get_bet(0), 0);
    assert_eq!(agents.balances.get(0), Ok(50));
}

#[test]
fn sell_escrow_goes_by_shares_alone() {
    let mut agents = Agents::load(&[Agent::new(0, 0, &[(0, 4)], &[])]);
    let mut companies = one_company();
    let mut market = Market::new();
    // an id without a ledger slot holds no shares
    assert_eq!(
        market.trade(false, &order(5, TradeAction::Sell, 2, 3), &mut agents, &mut companies, 0),
        Err(SimulationError::Unspendable)
    );
    assert_eq!(
        market.trade(false, &order(0, TradeAction::Sell, 2, 3), &mut agents, &mut companies, 0),
        Ok(Ok(ActionState::AddedToOffers))
    );
    assert_eq!(agents.holdings.get(0, 0), 1);
    let t = TodoTransactions { agent_id: 5, company_id: 0, strike_price: 2, action: TradeAction::Sell, trade: Trade::new(1) };
    assert_eq!(agents.deduct_assets_from_todotransaction(&t), Err(SimulationError::Unspendable));
}
