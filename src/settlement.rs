use vstd::prelude::*;
use crate::credit::CreditLedger;
use crate::types::{MarketError, SharePair};

verus! {

/// What a market's pairs put at stake on each side: the sum of their amounts.
pub open spec fn stake_sum(shares: Seq<SharePair>) -> int
    decreases shares.len(),
{
    if shares.len() == 0 {
        0
    } else {
        stake_sum(shares.drop_last()) + shares.last().amount
    }
}

/// The balances after every pair of `shares`, in order, has credited its
/// winner twice its amount.
pub open spec fn settled(
    balances: Map<Seq<char>, nat>,
    shares: Seq<SharePair>,
    winning_side: bool,
) -> Map<Seq<char>, nat>
    decreases shares.len(),
{
    if shares.len() == 0 {
        balances
    } else {
        let before = settled(balances, shares.drop_last(), winning_side);
        let w = shares.last().winner(winning_side)@;
        let owed: nat = if before.contains_key(w) {
            before[w]
        } else {
            0
        };
        before.insert(w, (owed + 2 * shares.last().amount) as nat)
    }
}

/// Settlement fits the ledger: no balance it produces exceeds `u128::MAX`.
pub open spec fn settlement_fits(
    balances: Map<Seq<char>, nat>,
    shares: Seq<SharePair>,
    winning_side: bool,
) -> bool {
    forall|k: Seq<char>| #[trigger]
        settled(balances, shares, winning_side).contains_key(k) ==> settled(
            balances,
            shares,
            winning_side,
        )[k] <= u128::MAX
}

/// Settling more pairs never lowers a balance nor removes an account.
pub proof fn lemma_settled_grows(
    balances: Map<Seq<char>, nat>,
    shares: Seq<SharePair>,
    winning_side: bool,
    j: int,
    k: Seq<char>,
)
    requires
        0 <= j <= shares.len(),
        settled(balances, shares.take(j), winning_side).contains_key(k),
    ensures
        settled(balances, shares, winning_side).contains_key(k),
        settled(balances, shares.take(j), winning_side)[k] <= settled(
            balances,
            shares,
            winning_side,
        )[k],
    decreases shares.len(),
{
    if j == shares.len() {
        assert(shares.take(j) =~= shares);
    } else {
        assert(shares.drop_last().take(j) =~= shares.take(j));
        lemma_settled_grows(balances, shares.drop_last(), winning_side, j, k);
    }
}

/// An account that wins none of `shares` is credited nothing by them.
pub proof fn lemma_only_winners_credited(
    balances: Map<Seq<char>, nat>,
    shares: Seq<SharePair>,
    winning_side: bool,
    k: Seq<char>,
)
    requires
        forall|i: int| 0 <= i < shares.len() ==> #[trigger] shares[i].winner(winning_side)@ != k,
    ensures
        settled(balances, shares, winning_side).contains_key(k) == balances.contains_key(k),
        settled(balances, shares, winning_side)[k] == balances[k],
    decreases shares.len(),
{
    if shares.len() > 0 {
        assert(shares.last() == shares[shares.len() - 1]);
        lemma_only_winners_credited(balances, shares.drop_last(), winning_side, k);
    }
}

/// Credits the winner of each pair of `shares` with twice the pair's amount.
/// If some balance would exceed `u128::MAX`, nothing is credited.
pub fn settle(
    ledger: &mut CreditLedger,
    shares: &Vec<SharePair>,
    winning_side: bool,
) -> (r: Result<(), MarketError>)
    requires
        old(ledger).wf(),
        forall|i: int| 0 <= i < shares@.len() ==> #[trigger] shares@[i].amount > 0,
    ensures
        final(ledger).wf(),
        r is Ok <==> settlement_fits(old(ledger)@, shares@, winning_side),
        r is Ok ==> {
            &&& final(ledger)@ == settled(old(ledger)@, shares@, winning_side)
            &&& final(ledger).total() == old(ledger).total() + 2 * stake_sum(shares@)
        },
        r is Err ==> r == Err::<(), MarketError>(MarketError::Overflow) && *final(ledger) == *old(ledger),
{
    let ghost start = ledger@;
    let mut next = ledger.duplicate();
    let mut i: usize = 0;
    while i < shares.len()
        invariant
            i <= shares@.len(),
            next.wf(),
            ledger.wf(),
            forall|j: int| 0 <= j < shares@.len() ==> #[trigger] shares@[j].amount > 0,
            next@ == settled(start, shares@.take(i as int), winning_side),
            next.total() == ledger.total() + 2 * stake_sum(shares@.take(i as int)),
            start == ledger@,
        decreases shares@.len() - i,
    {
        let share = &shares[i];
        let winner = if winning_side {
            share.long.clone()
        } else {
            share.short.clone()
        };
        let ghost w = winner@;
        assert(shares@.take(i + 1).drop_last() =~= shares@.take(i as int));
        assert(shares@.take(i + 1).last() == shares@[i as int]);
        proof {
            next.lemma_balances_bounded();
        }
        let owed: u128 = match next.balance(&winner) {
            Some(b) => b,
            None => 0,
        };
        let payout: Option<u128> = match share.amount.checked_add(share.amount) {
            Some(p) => match owed.checked_add(p) {
                Some(_) => Some(p),
                None => None,
            },
            None => None,
        };
        match payout {
            Some(p) => {
                next.credit(winner, p);
            },
            None => {
                proof {
                    let grown = settled(start, shares@.take(i + 1), winning_side);
                    assert(grown.contains_key(w));
                    assert(grown[w] > u128::MAX);
                    lemma_settled_grows(start, shares@, winning_side, i + 1, w);
                }
                return Err(MarketError::Overflow);
            },
        }
        i = i + 1;
    }
    assert(shares@.take(i as int) =~= shares@);
    proof {
        next.lemma_balances_bounded();
    }
    *ledger = next;
    Ok(())
}

} // verus!
