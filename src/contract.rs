use vstd::prelude::*;
use crate::credit::CreditLedger;
use crate::market::{Market, ViewMarket};
use crate::settlement::{lemma_only_winners_credited, settle, settled, settlement_fits, stake_sum};
use crate::types::{MarketError, Offer, SharePair};

verus! {

/// The offers of `offers` that belong to market `market_id`, in order.
pub open spec fn offers_in(offers: Seq<Offer>, market_id: u32) -> Seq<Offer>
    decreases offers.len(),
{
    if offers.len() == 0 {
        offers
    } else {
        let rest = offers_in(offers.drop_last(), market_id);
        if offers.last().market_id == market_id {
            rest.push(offers.last())
        } else {
            rest
        }
    }
}

/// Some offer of `offers` has id `id`.
pub open spec fn has_offer(offers: Seq<Offer>, id: u32) -> bool {
    exists|i: int| 0 <= i < offers.len() && #[trigger] offers[i].id == id
}

/// The position of the offer with id `id` (meaningful when `has_offer`).
pub open spec fn offer_index(offers: Seq<Offer>, id: u32) -> int {
    choose|i: int| 0 <= i < offers.len() && #[trigger] offers[i].id == id
}

/// The pair that matching `offer` with an acceptance by `acceptor` records:
/// the acceptor takes the side that the offer left open.
pub open spec fn matched_pair(offer: Offer, acceptor: String) -> SharePair {
    if offer.is_long {
        SharePair { long: offer.account_id, short: acceptor, amount: offer.amount }
    } else {
        SharePair { long: acceptor, short: offer.account_id, amount: offer.amount }
    }
}

/// The whole state: markets, open offers, credit balances and the next offer id.
pub struct Contract {
    next_offer_id: u32,
    markets: Vec<Market>,
    credit: CreditLedger,
    offers: Vec<Offer>,
}

impl Contract {
    /// The markets, in order of creation; a market's id is its position.
    pub closed spec fn markets(&self) -> Seq<Market> {
        self.markets@
    }

    /// The offers posted and not yet accepted, in order of posting.
    pub closed spec fn offers(&self) -> Seq<Offer> {
        self.offers@
    }

    /// The balance owed to each account that is owed something.
    pub closed spec fn credits(&self) -> Map<Seq<char>, nat> {
        self.credit@
    }

    /// The sum of all balances owed.
    pub closed spec fn credit_total(&self) -> int {
        self.credit.total()
    }

    /// The id that the next offer will get.
    pub closed spec fn next_id(&self) -> u32 {
        self.next_offer_id
    }

    /// Market ids are positions; pair counts fit a `u32`; every escrowed
    /// amount is nonzero; offer ids increase strictly and stay below the
    /// next id; the ledger is well formed.
    pub closed spec fn wf(&self) -> bool {
        let ms = self.markets@;
        let os = self.offers@;
        &&& self.credit.wf()
        &&& ms.len() <= u32::MAX
        &&& forall|i: int| #![trigger ms[i]] 0 <= i < ms.len() ==> {
            &&& ms[i].id == i
            &&& ms[i].shares@.len() <= u32::MAX
            &&& forall|j: int| 0 <= j < ms[i].shares@.len() ==> #[trigger] ms[i].shares@[j].amount > 0
        }
        &&& forall|i: int| #![trigger os[i]] 0 <= i < os.len() ==> {
            &&& os[i].amount > 0
            &&& os[i].id < self.next_offer_id
        }
        &&& forall|i: int, j: int| #![trigger os[i], os[j]] 0 <= i < j < os.len() ==> os[i].id < os[j].id
    }

    /// Both states hold the same markets, offers, balances and next offer id.
    pub open spec fn same_as(&self, other: &Contract) -> bool {
        &&& self.markets() == other.markets()
        &&& self.offers() == other.offers()
        &&& self.credits() == other.credits()
        &&& self.credit_total() == other.credit_total()
        &&& self.next_id() == other.next_id()
    }

    /// What `accept_offer(offer_id, amount, acceptor)` returns in this state.
    pub open spec fn accept_outcome(&self, offer_id: u32, amount: u128, acceptor: String) -> Result<(), MarketError> {
        if !has_offer(self.offers(), offer_id) {
            Err(MarketError::NotFound)
        } else {
            let o = self.offers()[offer_index(self.offers(), offer_id)];
            if o.amount != amount {
                Err(MarketError::AmountMismatch)
            } else if o.account_id@ == acceptor@ {
                Err(MarketError::SelfMatch)
            } else if o.market_id >= self.markets().len() {
                Err(MarketError::MarketGone)
            } else if !self.markets()[o.market_id as int].is_open {
                Err(MarketError::AlreadyClosed)
            } else {
                Ok(())
            }
        }
    }

    /// `next` is this state after `acceptor` has accepted offer `offer_id`:
    /// the offer is gone and its market has one more pair.
    pub open spec fn accept_step(&self, next: &Contract, offer_id: u32, acceptor: String) -> bool {
        let i = offer_index(self.offers(), offer_id);
        let o = self.offers()[i];
        let mid = o.market_id as int;
        &&& next.offers() == self.offers().remove(i)
        &&& next.markets().len() == self.markets().len()
        &&& forall|j: int| 0 <= j < self.markets().len() && j != mid ==> #[trigger] next.markets()[j] == self.markets()[j]
        &&& next.markets()[mid].id == self.markets()[mid].id
        &&& next.markets()[mid].is_open == self.markets()[mid].is_open
        &&& next.markets()[mid].description == self.markets()[mid].description
        &&& next.markets()[mid].owner == self.markets()[mid].owner
        &&& next.markets()[mid].shares@ == self.markets()[mid].shares@.push(matched_pair(o, acceptor))
        &&& next.credits() == self.credits()
        &&& next.credit_total() == self.credit_total()
        &&& next.next_id() == self.next_id()
    }

    /// What `close_market(market_id, winning_side, caller)` returns in this state.
    pub open spec fn close_outcome(&self, market_id: u32, winning_side: bool, caller: String) -> Result<(), MarketError> {
        if market_id >= self.markets().len() {
            Err(MarketError::NotFound)
        } else {
            let m = self.markets()[market_id as int];
            if !m.is_open {
                Err(MarketError::AlreadyClosed)
            } else if m.owner@ != caller@ {
                Err(MarketError::Unauthorized)
            } else if !settlement_fits(self.credits(), m.shares@, winning_side) {
                Err(MarketError::Overflow)
            } else {
                Ok(())
            }
        }
    }

    /// `next` is this state after market `market_id` was closed with
    /// `winning_side`: it is closed, its pairs are as they were, and each
    /// pair's winner was credited twice the pair's amount.
    pub open spec fn close_step(&self, next: &Contract, market_id: u32, winning_side: bool) -> bool {
        let mid = market_id as int;
        let shares = self.markets()[mid].shares@;
        &&& next.markets().len() == self.markets().len()
        &&& forall|j: int| 0 <= j < self.markets().len() && j != mid ==> #[trigger] next.markets()[j] == self.markets()[j]
        &&& next.markets()[mid].id == self.markets()[mid].id
        &&& !next.markets()[mid].is_open
        &&& next.markets()[mid].description == self.markets()[mid].description
        &&& next.markets()[mid].owner == self.markets()[mid].owner
        &&& next.markets()[mid].shares == self.markets()[mid].shares
        &&& next.offers() == self.offers()
        &&& next.next_id() == self.next_id()
        &&& next.credits() == settled(self.credits(), shares, winning_side)
        &&& next.credit_total() == self.credit_total() + 2 * stake_sum(shares)
    }

    /// What `withdraw(caller)` returns in this state.
    pub open spec fn withdraw_outcome(&self, caller: String) -> Result<u128, MarketError> {
        if self.credits().contains_key(caller@) {
            Ok(self.credits()[caller@] as u128)
        } else {
            Err(MarketError::NoBalance)
        }
    }

    /// `next` is this state after `caller` withdrew: its entry is gone.
    pub open spec fn withdraw_step(&self, next: &Contract, caller: String) -> bool {
        &&& next.credits() == self.credits().remove(caller@)
        &&& next.credit_total() == self.credit_total() - self.credits()[caller@]
        &&& next.markets() == self.markets()
        &&& next.offers() == self.offers()
        &&& next.next_id() == self.next_id()
    }

    /// Where the offer with id `offer_id` stands among the open offers.
    fn find_offer(&self, offer_id: u32) -> (r: Option<usize>)
        requires
            self.wf(),
        ensures
            match r {
                Some(i) => has_offer(self.offers(), offer_id) && i == offer_index(self.offers(), offer_id)
                    && i < self.offers().len(),
                None => !has_offer(self.offers(), offer_id),
            },
    {
        let mut i: usize = 0;
        while i < self.offers.len()
            invariant
                self.wf(),
                i <= self.offers@.len(),
                forall|j: int| 0 <= j < i ==> #[trigger] self.offers@[j].id != offer_id,
            decreases self.offers@.len() - i,
        {
            if self.offers[i].id == offer_id {
                proof {
                    let os = self.offers@;
                    assert(os[i as int].id == offer_id);
                    let k = offer_index(os, offer_id);
                    assert(os[k].id == offer_id);
                    if k < i {
                        assert(os[k].id < os[i as int].id);
                    } else if k > i {
                        assert(os[i as int].id < os[k].id);
                    }
                }
                return Some(i);
            }
            i = i + 1;
        }
        None
    }

    /// `acceptor` accepts offer `offer_id`, attaching `amount`: the offer is
    /// removed and its market records a pair in which the acceptor takes the
    /// side that the offer left open, both at the offer's amount. Refused,
    /// with nothing changed, when no such offer is open, when `amount`
    /// differs from the offer's, when the acceptor posted the offer, when
    /// the offer's market does not exist, or when that market is closed.
    /// Returns the offer that was consumed.
    pub fn accept_offer(&mut self, offer_id: u32, amount: u128, acceptor: String) -> (r: Result<Offer, MarketError>)
        requires
            old(self).wf(),
            forall|i: int| 0 <= i < old(self).markets().len() ==> #[trigger] old(self).markets()[i].shares@.len() < u32::MAX,
        ensures
            final(self).wf(),
            match r {
                Ok(o) => {
                    &&& old(self).accept_outcome(offer_id, amount, acceptor) == Ok::<(), MarketError>(())
                    &&& o == old(self).offers()[offer_index(old(self).offers(), offer_id)]
                    &&& old(self).accept_step(final(self), offer_id, acceptor)
                },
                Err(e) => old(self).accept_outcome(offer_id, amount, acceptor) == Err::<(), MarketError>(e),
            },
            r is Err ==> final(self).same_as(old(self)),
    {
        let idx: usize = match self.find_offer(offer_id) {
            Some(i) => i,
            None => {
                return Err(MarketError::NotFound);
            },
        };
        if self.offers[idx].amount != amount {
            return Err(MarketError::AmountMismatch);
        }
        if self.offers[idx].account_id == acceptor {
            return Err(MarketError::SelfMatch);
        }
        let mid: usize = self.offers[idx].market_id as usize;
        if mid >= self.markets.len() {
            return Err(MarketError::MarketGone);
        }
        if !self.markets[mid].is_open {
            return Err(MarketError::AlreadyClosed);
        }
        let ghost before = *self;
        let o = self.offers.remove(idx);
        let consumed = o.copy();
        let ghost pair = matched_pair(o, acceptor);
        let (long, short) = if o.is_long {
            (o.account_id, acceptor)
        } else {
            (acceptor, o.account_id)
        };
        let mut m = self.markets.remove(mid);
        assert(m == before.markets@[mid as int]);
        m.shares.push(SharePair { long, short, amount: o.amount });
        assert(m.shares@ == before.markets@[mid as int].shares@.push(pair));
        self.markets.insert(mid, m);
        assert(self.markets@ =~= before.markets@.update(mid as int, m));
        proof {
            let os = self.offers@;
            let bos = before.offers@;
            assert forall|a: int| #![trigger os[a]] 0 <= a < os.len() implies {
                &&& os[a].amount > 0
                &&& os[a].id < self.next_offer_id
            } by {
                if a < idx {
                    assert(os[a] == bos[a]);
                } else {
                    assert(os[a] == bos[a + 1]);
                }
            }
            assert forall|a: int, b: int| #![trigger os[a], os[b]] 0 <= a < b < os.len() implies os[a].id
                < os[b].id by {
                let a2 = if a < idx { a } else { a + 1 };
                let b2 = if b < idx { b } else { b + 1 };
                assert(os[a] == bos[a2]);
                assert(os[b] == bos[b2]);
            }
            let ms = self.markets@;
            assert forall|i: int| #![trigger ms[i]] 0 <= i < ms.len() implies {
                &&& ms[i].id == i
                &&& ms[i].shares@.len() <= u32::MAX
                &&& forall|j: int| 0 <= j < ms[i].shares@.len() ==> #[trigger] ms[i].shares@[j].amount > 0
            } by {
                if i == mid {
                    assert forall|j: int| 0 <= j < ms[i].shares@.len() implies #[trigger] ms[i].shares@[j].amount > 0 by {
                        if j < ms[i].shares@.len() - 1 {
                            assert(ms[i].shares@[j] == before.markets@[i].shares@[j]);
                        }
                    }
                } else {
                    assert(ms[i] == before.markets@[i]);
                }
            }
        }
        Ok(consumed)
    }

    /// Closes market `market_id`, owned by `caller`, with `winning_side` as
    /// the outcome (`true`: the long side wins), and credits the winner of
    /// each of its pairs twice the pair's amount. The market's pairs stay as
    /// they were. Refused, with nothing changed, when the market does not
    /// exist, is closed already, is not the caller's, or when a balance
    /// would exceed `u128::MAX`.
    pub fn close_market(&mut self, market_id: u32, winning_side: bool, caller: String) -> (r: Result<(), MarketError>)
        requires
            old(self).wf(),
        ensures
            final(self).wf(),
            r == old(self).close_outcome(market_id, winning_side, caller),
            r is Ok ==> old(self).close_step(final(self), market_id, winning_side),
            r is Err ==> final(self).same_as(old(self)),
    {
        let mid: usize = market_id as usize;
        if mid >= self.markets.len() {
            return Err(MarketError::NotFound);
        }
        if !self.markets[mid].is_open {
            return Err(MarketError::AlreadyClosed);
        }
        if self.markets[mid].owner != caller {
            return Err(MarketError::Unauthorized);
        }
        let ghost before = *self;
        let mut m = self.markets.remove(mid);
        assert(m == before.markets@[mid as int]);
        let settled_ok = settle(&mut self.credit, &m.shares, winning_side);
        match settled_ok {
            Ok(()) => {
                m.is_open = false;
                self.markets.insert(mid, m);
                assert(self.markets@ =~= before.markets@.update(mid as int, m));
                Ok(())
            },
            Err(e) => {
                self.markets.insert(mid, m);
                assert(self.markets@ =~= before.markets@);
                Err(e)
            },
        }
    }

    /// Opens a new market owned by `owner`, with the next id (the number
    /// of markets so far) and no pairs, and returns its view.
    pub fn create_market(&mut self, description: String, owner: String) -> (r: ViewMarket)
        requires
            old(self).wf(),
            old(self).markets().len() < u32::MAX,
        ensures
            final(self).wf(),
            final(self).markets().len() == old(self).markets().len() + 1,
            final(self).markets().drop_last() == old(self).markets(),
            final(self).markets().last().id == old(self).markets().len(),
            final(self).markets().last().is_open,
            final(self).markets().last().description == description,
            final(self).markets().last().owner == owner,
            final(self).markets().last().shares@.len() == 0,
            r == final(self).markets().last().projection(),
            final(self).offers() == old(self).offers(),
            final(self).credits() == old(self).credits(),
            final(self).credit_total() == old(self).credit_total(),
            final(self).next_id() == old(self).next_id(),
    {
        let id: u32 = self.markets.len() as u32;
        let m = Market { id, is_open: true, description, owner, shares: Vec::new() };
        let ghost before = self.markets@;
        self.markets.push(m);
        assert(self.markets@.drop_last() =~= before);
        let r = ViewMarket::from(&self.markets[id as usize]);
        r
    }

    /// The view of market `market_id`, if it exists.
    pub fn get_market(&self, market_id: u32) -> (r: Option<ViewMarket>)
        requires
            self.wf(),
        ensures
            r == (if market_id < self.markets().len() {
                Some(self.markets()[market_id as int].projection())
            } else {
                None::<ViewMarket>
            }),
    {
        if (market_id as usize) < self.markets.len() {
            Some(ViewMarket::from(&self.markets[market_id as usize]))
        } else {
            None
        }
    }

    /// The views of all markets, in order of id.
    pub fn list_markets(&self) -> (r: Vec<ViewMarket>)
        requires
            self.wf(),
        ensures
            r@ == self.markets().map_values(|m: Market| m.projection()),
    {
        let mut r: Vec<ViewMarket> = Vec::new();
        let mut i: usize = 0;
        while i < self.markets.len()
            invariant
                i <= self.markets@.len(),
                r@ == self.markets@.take(i as int).map_values(|m: Market| m.projection()),
            decreases self.markets@.len() - i,
        {
            r.push(ViewMarket::from(&self.markets[i]));
            assert(self.markets@.take(i + 1).map_values(|m: Market| m.projection())
                =~= self.markets@.take(i as int).map_values(|m: Market| m.projection()).push(self.markets@[i as int].projection()));
            i = i + 1;
        }
        assert(self.markets@.take(i as int) =~= self.markets@);
        r
    }

    /// The open offers of market `market_id`, in order of posting.
    pub fn get_offers(&self, market_id: u32) -> (r: Vec<Offer>)
        requires
            self.wf(),
        ensures
            r@ == offers_in(self.offers(), market_id),
    {
        let mut r: Vec<Offer> = Vec::new();
        let mut i: usize = 0;
        while i < self.offers.len()
            invariant
                i <= self.offers@.len(),
                r@ == offers_in(self.offers@.take(i as int), market_id),
            decreases self.offers@.len() - i,
        {
            assert(self.offers@.take(i + 1).drop_last() =~= self.offers@.take(i as int));
            if self.offers[i].market_id == market_id {
                r.push(self.offers[i].copy());
            }
            i = i + 1;
        }
        assert(self.offers@.take(i as int) =~= self.offers@);
        r
    }

    /// `proposer` offers to take the long side (`is_long`) or the short side
    /// of market `market_id`, escrowing `amount`. The offer gets the next
    /// offer id and is returned. The market is checked only when the offer
    /// is accepted. Refused, with nothing changed, when `amount` is zero.
    pub fn create_offer(&mut self, market_id: u32, is_long: bool, amount: u128, proposer: String) -> (r: Result<Offer, MarketError>)
        requires
            old(self).wf(),
            old(self).next_id() < u32::MAX,
        ensures
            final(self).wf(),
            amount == 0 <==> r is Err,
            r is Err ==> r == Err::<Offer, MarketError>(MarketError::ZeroAmount) && final(self).same_as(old(self)),
            r matches Ok(o) ==> {
                &&& o == (Offer { id: old(self).next_id(), market_id, is_long, account_id: proposer, amount })
                &&& final(self).offers() == old(self).offers().push(o)
                &&& final(self).next_id() == old(self).next_id() + 1
                &&& final(self).markets() == old(self).markets()
                &&& final(self).credits() == old(self).credits()
                &&& final(self).credit_total() == old(self).credit_total()
            },
    {
        if amount == 0 {
            return Err(MarketError::ZeroAmount);
        }
        let id: u32 = self.next_offer_id;
        self.next_offer_id = id + 1;
        let o = Offer { id, market_id, is_long, account_id: proposer, amount };
        let r = o.copy();
        self.offers.push(o);
        Ok(r)
    }

    /// Pays out what `caller` is owed: its entry is removed and the amount
    /// returned, for the host to transfer. Refused, with nothing changed,
    /// when nothing is owed to `caller`.
    pub fn withdraw(&mut self, caller: String) -> (r: Result<u128, MarketError>)
        requires
            old(self).wf(),
        ensures
            final(self).wf(),
            r == old(self).withdraw_outcome(caller),
            r is Ok ==> old(self).withdraw_step(final(self), caller),
            r is Err ==> final(self).same_as(old(self)),
    {
        proof {
            self.credit.lemma_balances_bounded();
        }
        match self.credit.take(&caller) {
            Some(v) => Ok(v),
            None => Err(MarketError::NoBalance),
        }
    }

    /// What `account` is owed, if anything.
    pub fn credit_of(&self, account: &String) -> (r: Option<u128>)
        requires
            self.wf(),
        ensures
            r == (if self.credits().contains_key(account@) {
                Some(self.credits()[account@] as u128)
            } else {
                None::<u128>
            }),
    {
        self.credit.balance(account)
    }

    /// The pairs matched in market `market_id`, if it exists.
    pub fn market_shares(&self, market_id: u32) -> (r: Option<&Vec<SharePair>>)
        requires
            self.wf(),
        ensures
            r == (if market_id < self.markets().len() {
                Some(&self.markets()[market_id as int].shares)
            } else {
                None::<&Vec<SharePair>>
            }),
    {
        if (market_id as usize) < self.markets.len() {
            Some(&self.markets[market_id as usize].shares)
        } else {
            None
        }
    }

    /// The id that the next offer will get.
    pub fn next_offer_id(&self) -> (r: u32)
        ensures
            r == self.next_id(),
    {
        self.next_offer_id
    }

    /// A state with no market, no offer and nothing owed.
    pub fn new() -> (r: Contract)
        ensures
            r.wf(),
            r.markets().len() == 0,
            r.offers().len() == 0,
            r.credits() == Map::<Seq<char>, nat>::empty(),
            r.credit_total() == 0,
            r.next_id() == 0,
    {
        Contract { next_offer_id: 0, markets: Vec::new(), credit: CreditLedger::new(), offers: Vec::new() }
    }
}

/// Settlement conserves collateral: closing a market adds to the balances
/// owed exactly twice the sum of its pairs' amounts, and an account that
/// wins none of its pairs is owed what it was owed before.
pub proof fn lemma_settlement_conserves(
    before: &Contract,
    after: &Contract,
    market_id: u32,
    winning_side: bool,
    account: Seq<char>,
)
    requires
        market_id < before.markets().len(),
        before.close_step(after, market_id, winning_side),
    ensures
        after.credit_total() == before.credit_total() + 2 * stake_sum(
            before.markets()[market_id as int].shares@,
        ),
        (forall|i: int|
            0 <= i < before.markets()[market_id as int].shares@.len()
                ==> #[trigger] before.markets()[market_id as int].shares@[i].winner(winning_side)@ != account)
            ==> {
            &&& after.credits().contains_key(account) == before.credits().contains_key(account)
            &&& after.credits()[account] == before.credits()[account]
        },
{
    let shares = before.markets()[market_id as int].shares@;
    if forall|i: int| 0 <= i < shares.len() ==> #[trigger] shares[i].winner(winning_side)@ != account {
        lemma_only_winners_credited(before.credits(), shares, winning_side, account);
    }
}

/// An offer is accepted at most once: once it has been accepted, every
/// further acceptance of it is refused as not found.
pub proof fn lemma_accept_at_most_once(
    before: &Contract,
    after: &Contract,
    offer_id: u32,
    acceptor: String,
    amount: u128,
    other: String,
)
    requires
        before.wf(),
        has_offer(before.offers(), offer_id),
        before.accept_step(after, offer_id, acceptor),
    ensures
        after.accept_outcome(offer_id, amount, other) == Err::<(), MarketError>(MarketError::NotFound),
{
    let os = before.offers@;
    let i = offer_index(os, offer_id);
    let rest = after.offers();
    if has_offer(rest, offer_id) {
        let j = choose|j: int| 0 <= j < rest.len() && #[trigger] rest[j].id == offer_id;
        let j2 = if j < i { j } else { j + 1 };
        assert(rest[j] == os[j2]);
        if j2 < i {
            assert(os[j2].id < os[i].id);
        } else {
            assert(os[i].id < os[j2].id);
        }
    }
}

/// No account matches its own offer.
pub proof fn lemma_no_self_match(state: &Contract, offer_id: u32, amount: u128, acceptor: String)
    requires
        has_offer(state.offers(), offer_id),
        state.offers()[offer_index(state.offers(), offer_id)].account_id@ == acceptor@,
    ensures
        state.accept_outcome(offer_id, amount, acceptor) is Err,
        amount == state.offers()[offer_index(state.offers(), offer_id)].amount ==> state.accept_outcome(
            offer_id,
            amount,
            acceptor,
        ) == Err::<(), MarketError>(MarketError::SelfMatch),
{
}

/// A market closes once: closing it again is refused as already closed, and
/// the pairs it recorded are those it had before it was closed.
pub proof fn lemma_single_closure(
    before: &Contract,
    after: &Contract,
    market_id: u32,
    winning_side: bool,
    again_side: bool,
    caller: String,
)
    requires
        market_id < before.markets().len(),
        before.close_step(after, market_id, winning_side),
    ensures
        after.close_outcome(market_id, again_side, caller) == Err::<(), MarketError>(MarketError::AlreadyClosed),
        after.markets()[market_id as int].shares@ == before.markets()[market_id as int].shares@,
{
}

/// A withdrawal drains the balance: a second one, with no credit between,
/// finds nothing owed.
pub proof fn lemma_withdraw_once(before: &Contract, after: &Contract, caller: String)
    requires
        before.withdraw_step(after, caller),
    ensures
        after.withdraw_outcome(caller) == Err::<u128, MarketError>(MarketError::NoBalance),
{
}

} // verus!
