use vstd::prelude::*;

verus! {

/// Sum of the balances of a list of ledger entries.
pub open spec fn sum_balances(s: Seq<(String, u128)>) -> int
    decreases s.len(),
{
    if s.len() == 0 {
        0
    } else {
        sum_balances(s.drop_last()) + s.last().1
    }
}

proof fn lemma_sum_update(s: Seq<(String, u128)>, i: int, e: (String, u128))
    requires
        0 <= i < s.len(),
    ensures
        sum_balances(s.update(i, e)) == sum_balances(s) - s[i].1 + e.1,
    decreases s.len(),
{
    if i < s.len() - 1 {
        assert(s.update(i, e).drop_last() =~= s.drop_last().update(i, e));
        lemma_sum_update(s.drop_last(), i, e);
    } else {
        assert(s.update(i, e).drop_last() =~= s.drop_last());
    }
}

proof fn lemma_sum_remove(s: Seq<(String, u128)>, i: int)
    requires
        0 <= i < s.len(),
    ensures
        sum_balances(s.remove(i)) == sum_balances(s) - s[i].1,
    decreases s.len(),
{
    if i < s.len() - 1 {
        assert(s.remove(i).drop_last() =~= s.drop_last().remove(i));
        lemma_sum_remove(s.drop_last(), i);
    } else {
        assert(s.remove(i) =~= s.drop_last());
    }
}

proof fn lemma_sum_push(s: Seq<(String, u128)>, e: (String, u128))
    ensures
        sum_balances(s.push(e)) == sum_balances(s) + e.1,
{
    assert(s.push(e).drop_last() =~= s);
}

/// Funds owed to accounts, one entry per account with a nonzero balance.
pub struct CreditLedger {
    entries: Vec<(String, u128)>,
    balances: Ghost<Map<Seq<char>, nat>>,
}

impl CreditLedger {
    /// The balance owed to each account that has one.
    pub closed spec fn view(&self) -> Map<Seq<char>, nat> {
        self.balances@
    }

    /// The sum of all balances owed.
    pub closed spec fn total(&self) -> int {
        sum_balances(self.entries@)
    }

    /// Each account has at most one entry, every entry is nonzero, and the
    /// entries are exactly the balances of `view`.
    pub closed spec fn wf(&self) -> bool {
        let e = self.entries@;
        let m = self.balances@;
        &&& forall|i: int| #![trigger e[i]] 0 <= i < e.len() ==> {
            &&& e[i].1 > 0
            &&& m.contains_key(e[i].0@)
            &&& m[e[i].0@] == e[i].1 as nat
        }
        &&& forall|i: int, j: int|
            #![trigger e[i], e[j]]
            0 <= i < e.len() && 0 <= j < e.len() && i != j ==> e[i].0@ != e[j].0@
        &&& forall|k: Seq<char>| #[trigger]
            m.contains_key(k) ==> exists|i: int| 0 <= i < e.len() && e[i].0@ == k
    }

    /// A ledger that owes nothing.
    pub fn new() -> (r: CreditLedger)
        ensures
            r.wf(),
            r@ == Map::<Seq<char>, nat>::empty(),
            r.total() == 0,
    {
        CreditLedger { entries: Vec::new(), balances: Ghost(Map::empty()) }
    }

    /// Every balance owed is nonzero and fits a `u128`; the total is not negative.
    pub proof fn lemma_balances_bounded(&self)
        requires
            self.wf(),
        ensures
            forall|k: Seq<char>| #[trigger]
                self@.contains_key(k) ==> 0 < self@[k] <= u128::MAX,
            self.total() >= 0,
    {
        assert forall|k: Seq<char>| #[trigger] self@.contains_key(k) implies 0 < self@[k] <= u128::MAX by {
            let i = choose|i: int| 0 <= i < self.entries@.len() && self.entries@[i].0@ == k;
            assert(self.entries@[i].1 > 0);
        }
        lemma_sum_nonneg(self.entries@);
    }

    /// An independent copy of the ledger.
    pub fn duplicate(&self) -> (r: CreditLedger)
        requires
            self.wf(),
        ensures
            r.wf(),
            r@ == self@,
            r.total() == self.total(),
    {
        let mut entries: Vec<(String, u128)> = Vec::new();
        let mut i: usize = 0;
        while i < self.entries.len()
            invariant
                self.wf(),
                i <= self.entries@.len(),
                entries@ == self.entries@.take(i as int),
            decreases self.entries@.len() - i,
        {
            entries.push((self.entries[i].0.clone(), self.entries[i].1));
            assert(self.entries@.take(i + 1) =~= self.entries@.take(i as int).push(self.entries@[i as int]));
            i = i + 1;
        }
        assert(self.entries@.take(i as int) =~= self.entries@);
        let r = CreditLedger { entries, balances: Ghost(self.balances@) };
        assert(r.entries@ == self.entries@);
        r
    }

    /// Where `account` stands in the entries, if anywhere.
    fn position(&self, account: &String) -> (r: Option<usize>)
        requires
            self.wf(),
        ensures
            match r {
                Some(i) => i < self.entries@.len() && self.entries@[i as int].0@ == account@,
                None => !self@.contains_key(account@),
            },
    {
        let mut i: usize = 0;
        while i < self.entries.len()
            invariant
                self.wf(),
                i <= self.entries@.len(),
                forall|j: int| 0 <= j < i ==> #[trigger] self.entries@[j].0@ != account@,
            decreases self.entries@.len() - i,
        {
            if self.entries[i].0 == *account {
                return Some(i);
            }
            i = i + 1;
        }
        None
    }

    /// The balance owed to `account`, if any.
    pub fn balance(&self, account: &String) -> (r: Option<u128>)
        requires
            self.wf(),
        ensures
            r == (if self@.contains_key(account@) { Some(self@[account@] as u128) } else { None::<u128> }),
    {
        match self.position(account) {
            Some(i) => Some(self.entries[i].1),
            None => None,
        }
    }

    /// Adds `amount` to what is owed to `account`, creating its entry if it
    /// has none.
    pub fn credit(&mut self, account: String, amount: u128)
        requires
            old(self).wf(),
            amount > 0,
            old(self).balance_after(account@, amount as int) <= u128::MAX,
        ensures
            final(self).wf(),
            final(self)@ == old(self)@.insert(
                account@,
                old(self).balance_after(account@, amount as int) as nat,
            ),
            final(self).total() == old(self).total() + amount,
    {
        match self.position(&account) {
            Some(i) => {
                let prev: u128 = self.entries[i].1;
                let ghost old_e = self.entries@;
                let ghost k = account@;
                proof {
                    lemma_sum_update(old_e, i as int, (account, (prev + amount) as u128));
                }
                self.entries.set(i, (account, prev + amount));
                self.balances = Ghost(self.balances@.insert(k, (prev + amount) as nat));
                proof {
                    let e = self.entries@;
                    assert forall|k2: Seq<char>| #[trigger]
                        self.balances@.contains_key(k2) implies exists|j: int|
                        0 <= j < e.len() && e[j].0@ == k2 by {
                        if k2 != k {
                            let j = choose|j: int| 0 <= j < old_e.len() && old_e[j].0@ == k2;
                            assert(e[j].0@ == k2);
                        } else {
                            assert(e[i as int].0@ == k2);
                        }
                    }
                }
            },
            None => {
                let ghost old_e = self.entries@;
                let ghost k = account@;
                proof {
                    lemma_sum_push(old_e, (account, amount));
                }
                self.entries.push((account, amount));
                self.balances = Ghost(self.balances@.insert(k, amount as nat));
                proof {
                    let e = self.entries@;
                    assert forall|k2: Seq<char>| #[trigger]
                        self.balances@.contains_key(k2) implies exists|j: int|
                        0 <= j < e.len() && e[j].0@ == k2 by {
                        if k2 != k {
                            let j = choose|j: int| 0 <= j < old_e.len() && old_e[j].0@ == k2;
                            assert(e[j].0@ == k2);
                        } else {
                            assert(e[old_e.len() as int].0@ == k2);
                        }
                    }
                }
            },
        }
    }

    /// What `account` would be owed after being credited `amount`.
    pub open spec fn balance_after(&self, account: Seq<char>, amount: int) -> int {
        if self@.contains_key(account) {
            self@[account] + amount
        } else {
            amount
        }
    }

    /// Removes the entry of `account` and returns what it was owed, or
    /// `None` (leaving the ledger as it was) if it is owed nothing.
    pub fn take(&mut self, account: &String) -> (r: Option<u128>)
        requires
            old(self).wf(),
        ensures
            final(self).wf(),
            match r {
                Some(v) => {
                    &&& old(self)@.contains_key(account@)
                    &&& v as nat == old(self)@[account@]
                    &&& final(self)@ == old(self)@.remove(account@)
                    &&& final(self).total() == old(self).total() - v
                },
                None => {
                    &&& !old(self)@.contains_key(account@)
                    &&& *final(self) == *old(self)
                },
            },
    {
        match self.position(account) {
            Some(i) => {
                let ghost old_e = self.entries@;
                let ghost k = account@;
                proof {
                    lemma_sum_remove(old_e, i as int);
                }
                let (_, v) = self.entries.remove(i);
                self.balances = Ghost(self.balances@.remove(k));
                proof {
                    let e = self.entries@;
                    assert forall|a: int| #![trigger e[a]] 0 <= a < e.len() implies {
                        &&& e[a].1 > 0
                        &&& self.balances@.contains_key(e[a].0@)
                        &&& self.balances@[e[a].0@] == e[a].1 as nat
                    } by {
                        if a < i {
                            assert(e[a] == old_e[a]);
                        } else {
                            assert(e[a] == old_e[a + 1]);
                        }
                    }
                    assert forall|a: int, b: int|
                        #![trigger e[a], e[b]]
                        0 <= a < e.len() && 0 <= b < e.len() && a != b implies e[a].0@
                        != e[b].0@ by {
                        let a2 = if a < i { a } else { a + 1 };
                        let b2 = if b < i { b } else { b + 1 };
                        assert(e[a] == old_e[a2]);
                        assert(e[b] == old_e[b2]);
                    }
                    assert forall|k2: Seq<char>| #[trigger]
                        self.balances@.contains_key(k2) implies exists|j: int|
                        0 <= j < e.len() && e[j].0@ == k2 by {
                        let j = choose|j: int| 0 <= j < old_e.len() && old_e[j].0@ == k2;
                        assert(j != i);
                        if j < i {
                            assert(e[j] == old_e[j]);
                        } else {
                            assert(e[j - 1] == old_e[j]);
                        }
                    }
                }
                Some(v)
            },
            None => None,
        }
    }
}

proof fn lemma_sum_nonneg(s: Seq<(String, u128)>)
    ensures
        sum_balances(s) >= 0,
    decreases s.len(),
{
    if s.len() > 0 {
        lemma_sum_nonneg(s.drop_last());
    }
}

} // verus!
