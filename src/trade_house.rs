use crate::OFFER_LIFETIME;
use std::collections::HashMap;
use vstd::prelude::*;

verus! {

broadcast use vstd::std_specs::hash::group_hash_axioms;

/// Relies on rand::random::<u64>: it draws an identifier for a new offer; nothing
/// is known of the value.
#[verifier::external_body]
fn random_id() -> u64 {
    rand::random::<u64>()
}

/// The side of an order.
#[derive(Debug, Clone, Copy, PartialEq, Eq, Structural)]
pub enum TradeAction {
    Buy,
    Sell,
}

impl TradeAction {
    /// The opposite side.
    pub fn complement(&self) -> (r: Self)
        ensures
            r == opposite(*self),
    {
        match self {
            TradeAction::Buy => TradeAction::Sell,
            TradeAction::Sell => TradeAction::Buy,
        }
    }
}

/// The opposite side.
pub open spec fn opposite(a: TradeAction) -> TradeAction {
    match a {
        TradeAction::Buy => TradeAction::Sell,
        TradeAction::Sell => TradeAction::Buy,
    }
}

/// What an offer carries: a quantity of shares and possibly more.
pub trait Payload: Copy + Sized {
    /// The quantity of shares.
    spec fn shares(&self) -> u64;

    fn number_of_shares(&self) -> (r: u64)
        ensures
            r == self.shares(),
    ;
}

/// A plain quantity of shares.
#[derive(Debug, Clone, Copy, PartialEq, Eq, Structural)]
pub struct Trade {
    pub number_of_shares: u64,
}

impl Trade {
    pub fn new(number_of_shares: u64) -> (r: Self)
        ensures
            r.number_of_shares == number_of_shares,
    {
        Self { number_of_shares }
    }
}

impl Payload for Trade {
    open spec fn shares(&self) -> u64 {
        self.number_of_shares
    }

    fn number_of_shares(&self) -> (r: u64) {
        self.number_of_shares
    }
}

/// A quantity of shares with an expiry horizon.
#[derive(Debug, Clone, Copy, PartialEq, Eq, Structural)]
pub struct StockOption {
    pub number_of_shares: u64,
    pub time_to_expiry: u64,
}

impl StockOption {
    pub fn new(number_of_shares: u64, time_to_expiry: u64) -> (r: Self)
        ensures
            r.number_of_shares == number_of_shares,
            r.time_to_expiry == time_to_expiry,
    {
        Self { number_of_shares, time_to_expiry }
    }
}

impl Payload for StockOption {
    open spec fn shares(&self) -> u64 {
        self.number_of_shares
    }

    fn number_of_shares(&self) -> (r: u64) {
        self.number_of_shares
    }
}

/// A resting order.
#[derive(Debug, Clone, Copy)]
pub struct Offer<T: Payload> {
    pub id: u64,
    pub offerer_id: u64,
    pub strike_price: u64,
    pub data: T,
    /// Ticks left before the offer expires.
    pub lifetime: u64,
}

impl<T: Payload> Offer<T> {
    /// A fresh offer with a random id and the full lifetime.
    pub fn new(offerer_id: u64, strike_price: u64, data: T) -> (r: Self)
        ensures
            r.offerer_id == offerer_id,
            r.strike_price == strike_price,
            r.data == data,
            r.lifetime == OFFER_LIFETIME,
    {
        Self { id: random_id(), offerer_id, strike_price, data, lifetime: OFFER_LIFETIME }
    }

    /// Counts one tick down; returns the offer if that ends its life.
    pub fn tick(&mut self) -> (r: Option<Offer<T>>)
        requires
            old(self).lifetime >= 1,
        ensures
            *final(self) == aged_offer(*old(self)),
            r == (if old(self).lifetime == 1 { Some(aged_offer(*old(self))) } else { None::<Offer<T>> }),
    {
        self.lifetime = self.lifetime - 1;
        if self.lifetime == 0 {
            return Some(*self);
        }
        None
    }
}

/// An offer one tick older.
pub open spec fn aged_offer<T: Payload>(o: Offer<T>) -> Offer<T> {
    Offer { lifetime: (o.lifetime - 1) as u64, ..o }
}

/// An offer that expired, with the side it rested on.
#[derive(Debug, Clone, Copy)]
pub struct FailedOffer<T: Payload>(pub Offer<T>, pub TradeAction);

/// The offers that survive a tick, one tick older, in their order.
pub open spec fn survivors<T: Payload>(s: Seq<Offer<T>>) -> Seq<Offer<T>>
    decreases s.len(),
{
    if s.len() == 0 {
        s
    } else {
        let rest = survivors(s.skip(1));
        if s[0].lifetime > 1 {
            seq![aged_offer(s[0])] + rest
        } else {
            rest
        }
    }
}

/// The offers that expire at a tick, last offer first, with lifetime zero.
pub open spec fn expiring<T: Payload>(s: Seq<Offer<T>>, side: TradeAction) -> Seq<FailedOffer<T>>
    decreases s.len(),
{
    if s.len() == 0 {
        Seq::empty()
    } else {
        let rest = expiring(s.skip(1), side);
        if s[0].lifetime == 1 {
            rest.push(FailedOffer(aged_offer(s[0]), side))
        } else {
            rest
        }
    }
}

/// `s` without the offers whose id is `id`, in order.
pub open spec fn without_id<T: Payload>(s: Seq<Offer<T>>, id: u64) -> Seq<Offer<T>>
    decreases s.len(),
{
    if s.len() == 0 {
        s
    } else if s.last().id == id {
        without_id(s.drop_last(), id)
    } else {
        without_id(s.drop_last(), id).push(s.last())
    }
}

/// Every offer of `s` has some life left.
pub open spec fn alive<T: Payload>(s: Seq<Offer<T>>) -> bool {
    forall|i: int| 0 <= i < s.len() ==> #[trigger] s[i].lifetime >= 1
}

/// Whether an offer on `side` is within `deviation` of `price`: a sell offer at
/// most `price + deviation`, a buy offer at least `price - deviation`.
pub open spec fn viable<T: Payload>(o: Offer<T>, price: u64, deviation: u64, side: TradeAction) -> bool {
    match side {
        TradeAction::Sell => o.strike_price <= price + deviation,
        TradeAction::Buy => o.strike_price + deviation >= price,
    }
}

/// Indices of the viable offers of `s`, in increasing order.
pub open spec fn candidates<T: Payload>(s: Seq<Offer<T>>, price: u64, deviation: u64, side: TradeAction) -> Seq<usize>
    decreases s.len(),
{
    if s.len() == 0 {
        Seq::empty()
    } else {
        let rest = candidates(s.drop_last(), price, deviation, side);
        if viable(s.last(), price, deviation, side) {
            rest.push((s.len() - 1) as usize)
        } else {
            rest
        }
    }
}

/// All the offers on one company.
#[derive(Debug)]
pub struct Offers<T: Payload> {
    pub seller_offers: Vec<Offer<T>>,
    pub buyer_offers: Vec<Offer<T>>,
    pub lowest_strike_price: u64,
    pub highest_strike_price: u64,
}

impl<T: Payload> Offers<T> {
    /// The offers of one side.
    pub open spec fn side(&self, side: TradeAction) -> Seq<Offer<T>> {
        match side {
            TradeAction::Buy => self.buyer_offers@,
            TradeAction::Sell => self.seller_offers@,
        }
    }

    /// No offer on either side has run out of life.
    pub open spec fn wf(&self) -> bool {
        alive(self.seller_offers@) && alive(self.buyer_offers@)
    }

    /// No offers.
    pub fn new() -> (r: Self)
        ensures
            r.seller_offers@ == Seq::<Offer<T>>::empty(),
            r.buyer_offers@ == Seq::<Offer<T>>::empty(),
            r.lowest_strike_price == 0,
            r.highest_strike_price == 0,
    {
        Offers {
            seller_offers: Vec::new(),
            buyer_offers: Vec::new(),
            lowest_strike_price: 0,
            highest_strike_price: 0,
        }
    }

    /// Widens the observed price range to `price`.
    fn observe_price(&mut self, price: u64)
        ensures
            final(self).seller_offers == old(self).seller_offers,
            final(self).buyer_offers == old(self).buyer_offers,
    {
        if price > self.highest_strike_price {
            self.highest_strike_price = price;
        }
        if price < self.lowest_strike_price {
            self.lowest_strike_price = price;
        }
    }

    /// Appends an offer to the sell side.
    pub fn add_seller_offer(&mut self, trade: Offer<T>)
        ensures
            final(self).seller_offers@ == old(self).seller_offers@.push(trade),
            final(self).buyer_offers@ == old(self).buyer_offers@,
    {
        self.observe_price(trade.strike_price);
        self.seller_offers.push(trade);
    }

    /// Appends an offer to the buy side.
    pub fn add_buyer_offer(&mut self, trade: Offer<T>)
        ensures
            final(self).buyer_offers@ == old(self).buyer_offers@.push(trade),
            final(self).seller_offers@ == old(self).seller_offers@,
    {
        self.observe_price(trade.strike_price);
        self.buyer_offers.push(trade);
    }

    /// Appends an offer to the given side.
    pub fn add_offer(&mut self, trade: Offer<T>, offer_ask: TradeAction)
        ensures
            final(self).side(offer_ask) == old(self).side(offer_ask).push(trade),
            final(self).side(opposite(offer_ask)) == old(self).side(opposite(offer_ask)),
    {
        match offer_ask {
            TradeAction::Buy => self.add_buyer_offer(trade),
            TradeAction::Sell => self.add_seller_offer(trade),
        }
    }

    /// Removes every offer with id `offer_id` from both sides, keeping the
    /// order of the others.
    pub fn remove_offer(&mut self, offer_id: u64)
        ensures
            final(self).seller_offers@ == without_id(old(self).seller_offers@, offer_id),
            final(self).buyer_offers@ == without_id(old(self).buyer_offers@, offer_id),
    {
        Self::remove_id(&mut self.seller_offers, offer_id);
        Self::remove_id(&mut self.buyer_offers, offer_id);
    }

    fn remove_id(offers: &mut Vec<Offer<T>>, offer_id: u64)
        ensures
            final(offers)@ == without_id(old(offers)@, offer_id),
    {
        let mut kept: Vec<Offer<T>> = Vec::new();
        let mut i: usize = 0;
        while i < offers.len()
            invariant
                i <= offers@.len(),
                offers@ == old(offers)@,
                kept@ == without_id(offers@.take(i as int), offer_id),
            decreases offers.len() - i,
        {
            proof { assert(offers@.take(i + 1).drop_last() =~= offers@.take(i as int)); }
            if offers[i].id != offer_id {
                kept.push(offers[i]);
            }
            i += 1;
        }
        proof { assert(offers@.take(offers@.len() as int) =~= offers@); }
        *offers = kept;
    }

    /// Removes the offer at `index` of one side.
    pub fn remove_offer_by_idx(&mut self, index: usize, side: TradeAction) -> (r: Offer<T>)
        requires
            index < old(self).side(side).len(),
        ensures
            r == old(self).side(side)[index as int],
            final(self).side(side) == old(self).side(side).remove(index as int),
            final(self).side(opposite(side)) == old(self).side(opposite(side)),
    {
        match side {
            TradeAction::Buy => self.buyer_offers.remove(index),
            TradeAction::Sell => self.seller_offers.remove(index),
        }
    }

    /// Indices of the offers on `side` within `deviation` of `price`, in book order.
    pub fn find_candidates(&self, price: u64, deviation: u64, side: TradeAction) -> (r: Vec<usize>)
        ensures
            r@ == candidates(self.side(side), price, deviation, side),
    {
        let offers = match side {
            TradeAction::Buy => &self.buyer_offers,
            TradeAction::Sell => &self.seller_offers,
        };
        let mut r: Vec<usize> = Vec::new();
        let mut i: usize = 0;
        while i < offers.len()
            invariant
                offers@ == self.side(side),
                i <= offers@.len(),
                r@ == candidates(offers@.take(i as int), price, deviation, side),
            decreases offers.len() - i,
        {
            assert(offers@.take(i + 1).drop_last() =~= offers@.take(i as int));
            let o = offers[i];
            let ok = match side {
                TradeAction::Sell => o.strike_price as u128 <= price as u128 + deviation as u128,
                TradeAction::Buy => o.strike_price as u128 + deviation as u128 >= price as u128,
            };
            if ok {
                r.push(i);
            }
            i += 1;
        }
        assert(offers@.take(offers@.len() as int) =~= offers@);
        r
    }

    /// Ages one side by a tick, moving the offers that expire into `expired`.
    fn tick_side(offers: &mut Vec<Offer<T>>, side: TradeAction, expired: &mut Vec<FailedOffer<T>>)
        requires
            alive(old(offers)@),
        ensures
            final(offers)@ == survivors(old(offers)@),
            final(expired)@ == old(expired)@ + expiring(old(offers)@, side),
            alive(final(offers)@),
    {
        let ghost s = offers@;
        let ghost e0 = expired@;
        let mut i: usize = offers.len();
        proof {
            assert(s.skip(s.len() as int) =~= Seq::<Offer<T>>::empty());
            assert(s.take(s.len() as int) =~= s);
        }
        while i > 0
            invariant
                i <= s.len(),
                alive(s),
                offers@ == s.take(i as int) + survivors(s.skip(i as int)),
                expired@ == e0 + expiring(s.skip(i as int), side),
            decreases i,
        {
            i -= 1;
            proof {
                assert(s.skip(i as int).skip(1) =~= s.skip(i + 1));
                assert(s.skip(i as int)[0] == s[i as int]);
                assert(s.take(i + 1) =~= s.take(i as int).push(s[i as int]));
            }
            assert(offers@[i as int] == s[i as int]);
            let o = offers[i];
            if o.lifetime == 1 {
                let mut gone = offers.remove(i);
                gone.lifetime = 0;
                expired.push(FailedOffer(gone, side));
                proof {
                    assert(offers@ =~= s.take(i as int) + survivors(s.skip(i as int)));
                    assert(expired@ =~= e0 + expiring(s.skip(i as int), side));
                }
            } else {
                let mut older = o;
                older.lifetime = o.lifetime - 1;
                offers.set(i, older);
                proof {
                    assert(offers@ =~= s.take(i as int) + survivors(s.skip(i as int)));
                }
            }
        }
        proof {
            assert(s.skip(0) =~= s);
            assert(s.take(0) =~= Seq::<Offer<T>>::empty());
            assert(offers@ =~= survivors(s));
            lemma_survivors_alive(s);
        }
    }

    /// Ages every offer by a tick and returns those that expired: the sell side's
    /// first, each side from its last offer to its first.
    pub fn tick(&mut self) -> (r: Vec<FailedOffer<T>>)
        requires
            old(self).wf(),
        ensures
            final(self).wf(),
            final(self).lowest_strike_price == old(self).lowest_strike_price,
            final(self).highest_strike_price == old(self).highest_strike_price,
            final(self).seller_offers@ == survivors(old(self).seller_offers@),
            final(self).buyer_offers@ == survivors(old(self).buyer_offers@),
            r@ == expiring(old(self).seller_offers@, TradeAction::Sell) + expiring(old(self).buyer_offers@, TradeAction::Buy),
    {
        let mut expired_offers: Vec<FailedOffer<T>> = Vec::new();
        Self::tick_side(&mut self.seller_offers, TradeAction::Sell, &mut expired_offers);
        Self::tick_side(&mut self.buyer_offers, TradeAction::Buy, &mut expired_offers);
        proof {
            assert(expired_offers@ =~= expiring(old(self).seller_offers@, TradeAction::Sell) + expiring(old(self).buyer_offers@, TradeAction::Buy));
        }
        expired_offers
    }
}

/// What survives a tick still has life left.
pub proof fn lemma_survivors_alive<T: Payload>(s: Seq<Offer<T>>)
    ensures
        alive(survivors(s)),
    decreases s.len(),
{
    if s.len() > 0 {
        lemma_survivors_alive(s.skip(1));
    }
}

} // verus!

verus! {

/// `new` is `old` with one fresh offer of `offerer_id` at `price` carrying `data`
/// appended.
pub open spec fn appended<T: Payload>(new: Seq<Offer<T>>, old: Seq<Offer<T>>, offerer_id: u64, price: u64, data: T) -> bool {
    &&& new.len() == old.len() + 1
    &&& new.drop_last() == old
    &&& new.last().offerer_id == offerer_id
    &&& new.last().strike_price == price
    &&& new.last().data == data
    &&& new.last().lifetime == OFFER_LIFETIME
}

/// The offers expiring on one company's book at a tick: sell side first.
pub open spec fn expiring_book<T: Payload>(sellers: Seq<Offer<T>>, buyers: Seq<Offer<T>>) -> Seq<FailedOffer<T>> {
    expiring(sellers, TradeAction::Sell) + expiring(buyers, TradeAction::Buy)
}

/// The books of every company that has had an offer, for one kind of payload.
#[derive(Debug)]
pub struct CompanyBooks<T: Payload> {
    books: HashMap<u64, Offers<T>>,
    /// Each company of `books` once, in the order of first use.
    companies: Vec<u64>,
}

impl<T: Payload> CompanyBooks<T> {
    /// The offers on one side of a company's book; empty where it has none.
    pub closed spec fn side(&self, company_id: u64, side: TradeAction) -> Seq<Offer<T>> {
        if self.books@.contains_key(company_id) {
            self.books@[company_id].side(side)
        } else {
            Seq::empty()
        }
    }

    /// The lowest and highest strike prices observed on a company's book; zero
    /// where it has none.
    pub closed spec fn bounds(&self, company_id: u64) -> (u64, u64) {
        if self.books@.contains_key(company_id) {
            (self.books@[company_id].lowest_strike_price, self.books@[company_id].highest_strike_price)
        } else {
            (0, 0)
        }
    }

    /// The company list indexes the map, and every offer has life left.
    pub closed spec fn wf(&self) -> bool {
        &&& self.companies@.no_duplicates()
        &&& forall|c: u64| self.books@.contains_key(c) <==> self.companies@.contains(c)
        &&& forall|c: u64| #[trigger] self.books@.contains_key(c) ==> self.books@[c].wf()
    }

    pub fn new() -> (r: Self)
        ensures
            r.wf(),
            forall|c: u64, s: TradeAction| r.side(c, s) == Seq::<Offer<T>>::empty(),
    {
        CompanyBooks { books: HashMap::new(), companies: Vec::new() }
    }

    /// A company's book, if it has one.
    pub fn get(&self, company_id: u64) -> (r: Option<&Offers<T>>)
        ensures
            r matches Some(o) ==> o.seller_offers@ == self.side(company_id, TradeAction::Sell)
                && o.buyer_offers@ == self.side(company_id, TradeAction::Buy),
            r is None ==> self.side(company_id, TradeAction::Sell) == Seq::<Offer<T>>::empty()
                && self.side(company_id, TradeAction::Buy) == Seq::<Offer<T>>::empty(),
    {
        self.books.get(&company_id)
    }

    /// Takes a company's book out, leaving an empty one.
    fn take(&mut self, company_id: u64) -> (r: Offers<T>)
        requires
            old(self).wf(),
        ensures
            r.wf(),
            final(self).wf(),
            final(self).books@.dom() == old(self).books@.dom(),
            final(self).companies@ == old(self).companies@,
            r.seller_offers@ == old(self).side(company_id, TradeAction::Sell),
            r.buyer_offers@ == old(self).side(company_id, TradeAction::Buy),
            (r.lowest_strike_price, r.highest_strike_price) == old(self).bounds(company_id),
            forall|c: u64| c != company_id && #[trigger] old(self).books@.contains_key(c) ==> final(self).books@[c] == old(self).books@[c],
    {
        match self.books.remove(&company_id) {
            Some(offers) => {
                self.books.insert(company_id, Offers::new());
                offers
            },
            None => Offers::new(),
        }
    }

    /// Puts a company's book in.
    fn put(&mut self, company_id: u64, offers: Offers<T>)
        requires
            old(self).wf(),
            offers.wf(),
        ensures
            final(self).wf(),
            forall|c: u64, s: TradeAction| #[trigger] final(self).side(c, s) == if c == company_id {
                offers.side(s)
            } else {
                old(self).side(c, s)
            },
    {
        if !self.books.contains_key(&company_id) {
            self.companies.push(company_id);
            proof {
                let cs = self.companies@;
                assert forall|a: int, b: int| 0 <= a < cs.len() && 0 <= b < cs.len() && a != b implies cs[a] != cs[b] by {
                    if a == cs.len() - 1 {
                        assert(old(self).companies@[b] == cs[b]);
                        assert(old(self).companies@.contains(cs[b]));
                    } else if b == cs.len() - 1 {
                        assert(old(self).companies@[a] == cs[a]);
                        assert(old(self).companies@.contains(cs[a]));
                    } else {
                        assert(old(self).companies@[a] == cs[a]);
                        assert(old(self).companies@[b] == cs[b]);
                    }
                }
            }
        }
        self.books.insert(company_id, offers);
        proof {
            assert forall|c: u64| self.books@.contains_key(c) <==> self.companies@.contains(c) by {
                if c == company_id {
                    if !old(self).books@.contains_key(company_id) {
                        assert(self.companies@.last() == company_id);
                    }
                } else if old(self).companies@.contains(c) {
                    let k = choose|k: int| 0 <= k < old(self).companies@.len() && old(self).companies@[k] == c;
                    assert(self.companies@[k] == c);
                } else if self.companies@.contains(c) {
                    let k = choose|k: int| 0 <= k < self.companies@.len() && self.companies@[k] == c;
                    assert(old(self).companies@[k] == c);
                }
            }
        }
    }

    /// Appends a fresh offer to one side of a company's book.
    pub fn add(&mut self, offerer_id: u64, company_id: u64, strike_price: u64, data: T, side: TradeAction)
        requires
            old(self).wf(),
        ensures
            final(self).wf(),
            appended(final(self).side(company_id, side), old(self).side(company_id, side), offerer_id, strike_price, data),
            forall|c: u64, s: TradeAction| !(c == company_id && s == side) ==> #[trigger] final(self).side(c, s) == old(self).side(c, s),
    {
        let mut offers = self.take(company_id);
        offers.add_offer(Offer::new(offerer_id, strike_price, data), side);
        self.put(company_id, offers);
        proof {
            assert(final(self).side(company_id, side).drop_last() =~= old(self).side(company_id, side));
        }
    }

    /// Removes the offer at `index` of one side of a company's book.
    pub fn remove(&mut self, company_id: u64, side: TradeAction, index: usize) -> (r: Offer<T>)
        requires
            old(self).wf(),
            index < old(self).side(company_id, side).len(),
        ensures
            final(self).wf(),
            r == old(self).side(company_id, side)[index as int],
            final(self).side(company_id, side) == old(self).side(company_id, side).remove(index as int),
            forall|c: u64, s: TradeAction| !(c == company_id && s == side) ==> #[trigger] final(self).side(c, s) == old(self).side(c, s),
    {
        let mut offers = self.take(company_id);
        let r = offers.remove_offer_by_idx(index, side);
        proof {
            let s = old(self).side(company_id, side).remove(index as int);
            assert forall|i: int| 0 <= i < s.len() implies #[trigger] s[i].lifetime >= 1 by {
                if i < index { assert(s[i] == old(self).side(company_id, side)[i]); }
                else { assert(s[i] == old(self).side(company_id, side)[i + 1]); }
            }
        }
        self.put(company_id, offers);
        r
    }

    /// Indices of the viable offers on `side` of a company's book, or `None` if
    /// the company never had a book.
    pub fn find(&self, company_id: u64, price: u64, deviation: u64, side: TradeAction) -> (r: Option<Vec<usize>>)
        ensures
            r matches Some(v) ==> v@ == candidates(self.side(company_id, side), price, deviation, side),
            r is None ==> self.side(company_id, side) == Seq::<Offer<T>>::empty(),
    {
        match self.books.get(&company_id) {
            Some(offers) => Some(offers.find_candidates(price, deviation, side)),
            None => None,
        }
    }

    /// Ages every offer by a tick; returns, for each company with expired
    /// offers, those offers.
    pub fn tick(&mut self) -> (r: HashMap<u64, Vec<FailedOffer<T>>>)
        requires
            old(self).wf(),
        ensures
            final(self).wf(),
            forall|c: u64, s: TradeAction| #[trigger] final(self).side(c, s) == survivors(old(self).side(c, s)),
            forall|c: u64| #[trigger] final(self).bounds(c) == old(self).bounds(c),
            forall|c: u64| #[trigger] r@.contains_key(c) <==> expiring_book(
                old(self).side(c, TradeAction::Sell), old(self).side(c, TradeAction::Buy)).len() > 0,
            forall|c: u64| #[trigger] r@.contains_key(c) ==> r@[c]@ == expiring_book(
                old(self).side(c, TradeAction::Sell), old(self).side(c, TradeAction::Buy)),
    {
        let ghost old_books = self.books@;
        let mut expired: HashMap<u64, Vec<FailedOffer<T>>> = HashMap::new();
        let mut j: usize = 0;
        while j < self.companies.len()
            invariant
                self.companies@ == old(self).companies@,
                self.companies@.no_duplicates(),
                self.books@.dom() == old_books.dom(),
                old_books == old(self).books@,
                forall|c: u64| self.books@.contains_key(c) <==> self.companies@.contains(c),
                forall|c: u64| #[trigger] self.books@.contains_key(c) ==> self.books@[c].wf(),
                forall|k: int| 0 <= k < j ==> {
                    let c = #[trigger] self.companies@[k];
                    &&& self.books@[c].seller_offers@ == survivors(old_books[c].seller_offers@)
                    &&& self.books@[c].buyer_offers@ == survivors(old_books[c].buyer_offers@)
                    &&& self.books@[c].lowest_strike_price == old_books[c].lowest_strike_price
                    &&& self.books@[c].highest_strike_price == old_books[c].highest_strike_price
                    &&& (expired@.contains_key(c) <==> expiring_book(old_books[c].seller_offers@, old_books[c].buyer_offers@).len() > 0)
                    &&& (expired@.contains_key(c) ==> expired@[c]@ == expiring_book(old_books[c].seller_offers@, old_books[c].buyer_offers@))
                },
                forall|k: int| j <= k < self.companies@.len() ==> {
                    let c = #[trigger] self.companies@[k];
                    &&& self.books@[c] == old_books[c]
                    &&& !expired@.contains_key(c)
                },
                forall|c: u64| #[trigger] expired@.contains_key(c) ==> self.companies@.contains(c),
                j <= self.companies@.len(),
            decreases self.companies.len() - j,
        {
            let company_id = self.companies[j];
            assert(self.companies@[j as int] == company_id);
            assert(self.companies@.contains(company_id));
            assert(self.books@.contains_key(company_id));
            let ghost pre = self.books@;
            let ghost pre_expired = expired@;
            let mut offers = self.take(company_id);
            let gone = offers.tick();
            self.books.insert(company_id, offers);
            if gone.len() > 0 {
                expired.insert(company_id, gone);
            }
            proof {
                assert(self.books@[company_id].seller_offers@ == survivors(old_books[company_id].seller_offers@));
                assert(self.books@[company_id].buyer_offers@ == survivors(old_books[company_id].buyer_offers@));
                assert(gone@ == expiring_book(old_books[company_id].seller_offers@, old_books[company_id].buyer_offers@));
                assert forall|k: int| 0 <= k < self.companies@.len() && k != j implies {
                    let c = #[trigger] self.companies@[k];
                    &&& self.books@[c] == pre[c]
                    &&& (expired@.contains_key(c) <==> pre_expired.contains_key(c))
                    &&& (pre_expired.contains_key(c) ==> expired@[c] == pre_expired[c])
                } by {
                    let c = self.companies@[k];
                    assert(self.companies@[j as int] == company_id);
                    assert(c != company_id);
                    assert(self.companies@.contains(c));
                }
                assert forall|k: int| 0 <= k < self.companies@.len() && k != j implies self.companies@[k] != company_id by {
                    assert(self.companies@[j as int] == company_id);
                }
            }
            j += 1;
        }
        proof {
            assert forall|c: u64| #[trigger] self.bounds(c) == old(self).bounds(c) by {
                if old_books.contains_key(c) {
                    assert(self.books@.contains_key(c));
                    assert(self.companies@.contains(c));
                    let k = choose|k: int| 0 <= k < self.companies@.len() && self.companies@[k] == c;
                    assert(self.companies@[k] == c);
                }
            }
            assert forall|c: u64, s: TradeAction| #[trigger] self.side(c, s) == survivors(old(self).side(c, s)) by {
                if old_books.contains_key(c) {
                    assert(self.books@.contains_key(c));
                    assert(self.companies@.contains(c));
                    let k = choose|k: int| 0 <= k < self.companies@.len() && self.companies@[k] == c;
                    assert(self.companies@[k] == c);
                } else {
                    assert(survivors(Seq::<Offer<T>>::empty()) == Seq::<Offer<T>>::empty());
                }
            }
            assert forall|c: u64| #[trigger] expired@.contains_key(c) <==> expiring_book(
                old(self).side(c, TradeAction::Sell), old(self).side(c, TradeAction::Buy)).len() > 0 by {
                if old_books.contains_key(c) {
                    assert(self.books@.contains_key(c));
                    assert(self.companies@.contains(c));
                    let k = choose|k: int| 0 <= k < self.companies@.len() && self.companies@[k] == c;
                    assert(self.companies@[k] == c);
                } else {
                    assert(expiring(Seq::<Offer<T>>::empty(), TradeAction::Sell) == Seq::<FailedOffer<T>>::empty());
                    assert(expiring(Seq::<Offer<T>>::empty(), TradeAction::Buy) == Seq::<FailedOffer<T>>::empty());
                }
            }
            assert forall|c: u64| #[trigger] expired@.contains_key(c) implies expired@[c]@ == expiring_book(
                old(self).side(c, TradeAction::Sell), old(self).side(c, TradeAction::Buy)) by {
                assert(self.companies@.contains(c));
                let k = choose|k: int| 0 <= k < self.companies@.len() && self.companies@[k] == c;
                assert(self.companies@[k] == c);
            }
        }
        expired
    }
}

} // verus!

verus! {

/// The resting offers of every company: plain share trades and options.
#[derive(Debug)]
pub struct TradeHouse {
    pub trade_offers: CompanyBooks<Trade>,
    pub option_offers: CompanyBooks<StockOption>,
}

impl TradeHouse {
    pub open spec fn wf(&self) -> bool {
        self.trade_offers.wf() && self.option_offers.wf()
    }

    /// An empty house.
    pub fn new() -> (r: Self)
        ensures
            r.wf(),
            forall|c: u64, s: TradeAction| r.trade_offers.side(c, s) == Seq::<Offer<Trade>>::empty(),
            forall|c: u64, s: TradeAction| r.option_offers.side(c, s) == Seq::<Offer<StockOption>>::empty(),
    {
        TradeHouse { trade_offers: CompanyBooks::new(), option_offers: CompanyBooks::new() }
    }

    /// A company's trade offers, if it ever had any.
    pub fn get_trade_offers(&self, company_id: u64) -> (r: Option<&Offers<Trade>>)
        ensures
            r matches Some(o) ==> o.seller_offers@ == self.trade_offers.side(company_id, TradeAction::Sell)
                && o.buyer_offers@ == self.trade_offers.side(company_id, TradeAction::Buy),
            r is None ==> self.trade_offers.side(company_id, TradeAction::Sell) == Seq::<Offer<Trade>>::empty()
                && self.trade_offers.side(company_id, TradeAction::Buy) == Seq::<Offer<Trade>>::empty(),
    {
        self.trade_offers.get(company_id)
    }

    /// A company's option offers, if it ever had any.
    pub fn get_option_offers(&self, company_id: u64) -> (r: Option<&Offers<StockOption>>)
        ensures
            r matches Some(o) ==> o.seller_offers@ == self.option_offers.side(company_id, TradeAction::Sell)
                && o.buyer_offers@ == self.option_offers.side(company_id, TradeAction::Buy),
            r is None ==> self.option_offers.side(company_id, TradeAction::Sell) == Seq::<Offer<StockOption>>::empty()
                && self.option_offers.side(company_id, TradeAction::Buy) == Seq::<Offer<StockOption>>::empty(),
    {
        self.option_offers.get(company_id)
    }

    /// Rests a fresh trade offer on one side of a company's book.
    pub fn add_trade_offer(&mut self, offerer_id: u64, company_id: u64, strike_price: u64, trade: Trade, offer_ask: TradeAction)
        requires
            old(self).wf(),
        ensures
            final(self).wf(),
            appended(final(self).trade_offers.side(company_id, offer_ask), old(self).trade_offers.side(company_id, offer_ask), offerer_id, strike_price, trade),
            forall|c: u64, s: TradeAction| !(c == company_id && s == offer_ask) ==> #[trigger] final(self).trade_offers.side(c, s) == old(self).trade_offers.side(c, s),
            forall|c: u64, s: TradeAction| #[trigger] final(self).option_offers.side(c, s) == old(self).option_offers.side(c, s),
    {
        self.trade_offers.add(offerer_id, company_id, strike_price, trade, offer_ask);
    }

    /// Rests a fresh option offer on one side of a company's book.
    pub fn add_option_offer(&mut self, offerer_id: u64, company_id: u64, strike_price: u64, option: StockOption, offer_ask: TradeAction)
        requires
            old(self).wf(),
        ensures
            final(self).wf(),
            appended(final(self).option_offers.side(company_id, offer_ask), old(self).option_offers.side(company_id, offer_ask), offerer_id, strike_price, option),
            forall|c: u64, s: TradeAction| !(c == company_id && s == offer_ask) ==> #[trigger] final(self).option_offers.side(c, s) == old(self).option_offers.side(c, s),
            forall|c: u64, s: TradeAction| #[trigger] final(self).trade_offers.side(c, s) == old(self).trade_offers.side(c, s),
    {
        self.option_offers.add(offerer_id, company_id, strike_price, option, offer_ask);
    }

    /// Removes the trade offer at `index` of one side of a company's book.
    pub fn remove_trade_offer(&mut self, company_id: u64, side: TradeAction, index: usize) -> (r: Offer<Trade>)
        requires
            old(self).wf(),
            index < old(self).trade_offers.side(company_id, side).len(),
        ensures
            final(self).wf(),
            r == old(self).trade_offers.side(company_id, side)[index as int],
            final(self).trade_offers.side(company_id, side) == old(self).trade_offers.side(company_id, side).remove(index as int),
            forall|c: u64, s: TradeAction| !(c == company_id && s == side) ==> #[trigger] final(self).trade_offers.side(c, s) == old(self).trade_offers.side(c, s),
            forall|c: u64, s: TradeAction| #[trigger] final(self).option_offers.side(c, s) == old(self).option_offers.side(c, s),
    {
        self.trade_offers.remove(company_id, side, index)
    }

    /// Indices of the trade offers on side `offer_ask` of a company's book within
    /// `acceptable_strike_price_deviation` of `strike_price`, in book order; `None`
    /// if the company never had a trade offer.
    pub fn get_appropriate_trade_offer(&self, company_id: u64, strike_price: u64, acceptable_strike_price_deviation: u64, offer_ask: TradeAction) -> (r: Option<Vec<usize>>)
        ensures
            r matches Some(v) ==> v@ == candidates(self.trade_offers.side(company_id, offer_ask), strike_price, acceptable_strike_price_deviation, offer_ask),
            r is None ==> self.trade_offers.side(company_id, offer_ask) == Seq::<Offer<Trade>>::empty(),
    {
        self.trade_offers.find(company_id, strike_price, acceptable_strike_price_deviation, offer_ask)
    }

    /// `get_appropriate_trade_offer` on the buy side.
    pub fn get_appropriate_buyer_trade_offer(&self, company_id: u64, strike_price: u64, acceptable_strike_price_deviation: u64) -> (r: Option<Vec<usize>>)
        ensures
            r matches Some(v) ==> v@ == candidates(self.trade_offers.side(company_id, TradeAction::Buy), strike_price, acceptable_strike_price_deviation, TradeAction::Buy),
            r is None ==> self.trade_offers.side(company_id, TradeAction::Buy) == Seq::<Offer<Trade>>::empty(),
    {
        self.get_appropriate_trade_offer(company_id, strike_price, acceptable_strike_price_deviation, TradeAction::Buy)
    }

    /// `get_appropriate_trade_offer` on the sell side.
    pub fn get_appropriate_seller_trade_offer(&self, company_id: u64, strike_price: u64, acceptable_strike_price_deviation: u64) -> (r: Option<Vec<usize>>)
        ensures
            r matches Some(v) ==> v@ == candidates(self.trade_offers.side(company_id, TradeAction::Sell), strike_price, acceptable_strike_price_deviation, TradeAction::Sell),
            r is None ==> self.trade_offers.side(company_id, TradeAction::Sell) == Seq::<Offer<Trade>>::empty(),
    {
        self.get_appropriate_trade_offer(company_id, strike_price, acceptable_strike_price_deviation, TradeAction::Sell)
    }

    /// Indices of the option offers on side `offer_ask` of a company's book
    /// within the deviation of `strike_price`, in book order.
    pub fn get_appropriate_option_offer(&self, company_id: u64, strike_price: u64, acceptable_strike_price_deviation: u64, offer_ask: TradeAction) -> (r: Option<Vec<usize>>)
        ensures
            r matches Some(v) ==> v@ == candidates(self.option_offers.side(company_id, offer_ask), strike_price, acceptable_strike_price_deviation, offer_ask),
            r is None ==> self.option_offers.side(company_id, offer_ask) == Seq::<Offer<StockOption>>::empty(),
    {
        self.option_offers.find(company_id, strike_price, acceptable_strike_price_deviation, offer_ask)
    }

    /// `get_appropriate_option_offer` on the buy side.
    pub fn get_appropriate_buyer_option_offer(&self, company_id: u64, strike_price: u64, acceptable_strike_price_deviation: u64) -> (r: Option<Vec<usize>>)
        ensures
            r matches Some(v) ==> v@ == candidates(self.option_offers.side(company_id, TradeAction::Buy), strike_price, acceptable_strike_price_deviation, TradeAction::Buy),
            r is None ==> self.option_offers.side(company_id, TradeAction::Buy) == Seq::<Offer<StockOption>>::empty(),
    {
        self.get_appropriate_option_offer(company_id, strike_price, acceptable_strike_price_deviation, TradeAction::Buy)
    }

    /// `get_appropriate_option_offer` on the sell side.
    pub fn get_appropriate_seller_option_offer(&self, company_id: u64, strike_price: u64, acceptable_strike_price_deviation: u64) -> (r: Option<Vec<usize>>)
        ensures
            r matches Some(v) ==> v@ == candidates(self.option_offers.side(company_id, TradeAction::Sell), strike_price, acceptable_strike_price_deviation, TradeAction::Sell),
            r is None ==> self.option_offers.side(company_id, TradeAction::Sell) == Seq::<Offer<StockOption>>::empty(),
    {
        self.get_appropriate_option_offer(company_id, strike_price, acceptable_strike_price_deviation, TradeAction::Sell)
    }

    /// Ages every offer by a tick; returns the expired trade offers and the
    /// expired option offers, each keyed by company.
    pub fn tick(&mut self) -> (r: (HashMap<u64, Vec<FailedOffer<Trade>>>, HashMap<u64, Vec<FailedOffer<StockOption>>>))
        requires
            old(self).wf(),
        ensures
            final(self).wf(),
            forall|c: u64, s: TradeAction| #[trigger] final(self).trade_offers.side(c, s) == survivors(old(self).trade_offers.side(c, s)),
            forall|c: u64, s: TradeAction| #[trigger] final(self).option_offers.side(c, s) == survivors(old(self).option_offers.side(c, s)),
            forall|c: u64| #[trigger] final(self).trade_offers.bounds(c) == old(self).trade_offers.bounds(c),
            forall|c: u64| #[trigger] final(self).option_offers.bounds(c) == old(self).option_offers.bounds(c),
            forall|c: u64| #[trigger] r.0@.contains_key(c) <==> expiring_book(
                old(self).trade_offers.side(c, TradeAction::Sell), old(self).trade_offers.side(c, TradeAction::Buy)).len() > 0,
            forall|c: u64| #[trigger] r.0@.contains_key(c) ==> r.0@[c]@ == expiring_book(
                old(self).trade_offers.side(c, TradeAction::Sell), old(self).trade_offers.side(c, TradeAction::Buy)),
            forall|c: u64| #[trigger] r.1@.contains_key(c) <==> expiring_book(
                old(self).option_offers.side(c, TradeAction::Sell), old(self).option_offers.side(c, TradeAction::Buy)).len() > 0,
            forall|c: u64| #[trigger] r.1@.contains_key(c) ==> r.1@[c]@ == expiring_book(
                old(self).option_offers.side(c, TradeAction::Sell), old(self).option_offers.side(c, TradeAction::Buy)),
    {
        let trades = self.trade_offers.tick();
        let options = self.option_offers.tick();
        (trades, options)
    }
}

} // verus!

verus! {

/// The offer `o` with `lifetime` ticks left.
pub open spec fn with_lifetime<T: Payload>(o: Offer<T>, lifetime: u64) -> Offer<T> {
    Offer { lifetime, ..o }
}

/// The offers of `s` after `k` ticks.
pub open spec fn ticks<T: Payload>(s: Seq<Offer<T>>, k: nat) -> Seq<Offer<T>>
    decreases k,
{
    if k == 0 {
        s
    } else {
        survivors(ticks(s, (k - 1) as nat))
    }
}

/// An offer with more than one tick left survives a tick, one tick older.
proof fn lemma_survivor_kept<T: Payload>(s: Seq<Offer<T>>, j: int) -> (j2: int)
    requires
        0 <= j < s.len(),
        s[j].lifetime > 1,
    ensures
        0 <= j2 < survivors(s).len(),
        survivors(s)[j2] == aged_offer(s[j]),
    decreases s.len(),
{
    if j == 0 {
        0
    } else {
        let inner = lemma_survivor_kept(s.skip(1), j - 1);
        if s[0].lifetime > 1 {
            inner + 1
        } else {
            inner
        }
    }
}

/// An offer with one tick left is among those that expire at the tick.
proof fn lemma_expiring_has<T: Payload>(s: Seq<Offer<T>>, j: int, side: TradeAction)
    requires
        0 <= j < s.len(),
        s[j].lifetime == 1,
    ensures
        expiring(s, side).contains(FailedOffer(aged_offer(s[j]), side)),
    decreases s.len(),
{
    if j == 0 {
        assert(expiring(s, side).last() == FailedOffer(aged_offer(s[0]), side));
    } else {
        lemma_expiring_has(s.skip(1), j - 1, side);
        let rest = expiring(s.skip(1), side);
        let k = choose|k: int| 0 <= k < rest.len() && rest[k] == FailedOffer(aged_offer(s[j]), side);
        if s[0].lifetime == 1 {
            assert(expiring(s, side)[k] == rest[k]);
        } else {
            assert(expiring(s, side)[k] == rest[k]);
        }
    }
}

/// After `k` ticks, with `k` below its lifetime, an offer still rests in the
/// book with `k` fewer ticks left.
pub proof fn lemma_offer_rests_until_expiry<T: Payload>(s: Seq<Offer<T>>, j: int, k: nat) -> (j2: int)
    requires
        0 <= j < s.len(),
        k < s[j].lifetime,
    ensures
        0 <= j2 < ticks(s, k).len(),
        ticks(s, k)[j2] == with_lifetime(s[j], (s[j].lifetime - k) as u64),
    decreases k,
{
    if k == 0 {
        j
    } else {
        let j1 = lemma_offer_rests_until_expiry(s, j, (k - 1) as nat);
        lemma_survivor_kept(ticks(s, (k - 1) as nat), j1)
    }
}

/// An offer with lifetime `L` rests through `L - 1` ticks and is reported as
/// expired at tick `L`, with the price, payload and offerer it was submitted with.
pub proof fn lemma_offer_expires_after_lifetime<T: Payload>(s: Seq<Offer<T>>, j: int, side: TradeAction)
    requires
        0 <= j < s.len(),
        s[j].lifetime >= 1,
    ensures
        forall|k: nat| #![trigger ticks(s, k)] k < s[j].lifetime ==> ticks(s, k).contains(with_lifetime(s[j], (s[j].lifetime - k) as u64)),
        expiring(ticks(s, (s[j].lifetime - 1) as nat), side).contains(FailedOffer(with_lifetime(s[j], 0), side)),
{
    assert forall|k: nat| #![trigger ticks(s, k)] k < s[j].lifetime implies ticks(s, k).contains(with_lifetime(s[j], (s[j].lifetime - k) as u64)) by {
        let j2 = lemma_offer_rests_until_expiry(s, j, k);
    }
    let last = (s[j].lifetime - 1) as nat;
    let j1 = lemma_offer_rests_until_expiry(s, j, last);
    lemma_expiring_has(ticks(s, last), j1, side);
}

/// A tick on offers none of which has a single tick left reports nothing and
/// keeps every offer, in order, one tick older.
pub proof fn lemma_tick_without_expiry<T: Payload>(s: Seq<Offer<T>>, side: TradeAction)
    requires
        forall|i: int| 0 <= i < s.len() ==> #[trigger] s[i].lifetime > 1,
    ensures
        expiring(s, side) == Seq::<FailedOffer<T>>::empty(),
        survivors(s).len() == s.len(),
        forall|i: int| 0 <= i < s.len() ==> #[trigger] survivors(s)[i] == aged_offer(s[i]),
    decreases s.len(),
{
    if s.len() > 0 {
        assert(s[0].lifetime > 1);
        assert forall|i: int| 0 <= i < s.skip(1).len() implies #[trigger] s.skip(1)[i].lifetime > 1 by {
            assert(s.skip(1)[i] == s[i + 1]);
        }
        lemma_tick_without_expiry(s.skip(1), side);
        assert forall|i: int| 0 <= i < s.len() implies #[trigger] survivors(s)[i] == aged_offer(s[i]) by {
            if i > 0 {
                assert(survivors(s)[i] == survivors(s.skip(1))[i - 1]);
                assert(s.skip(1)[i - 1] == s[i]);
            }
        }
    }
}

} // verus!
