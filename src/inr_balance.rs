use vstd::prelude::*;

verus! {

/// Why a ledger operation was refused. A refused operation leaves the ledger as it was.
#[derive(Clone, Copy, Debug, PartialEq, Eq, Structural)]
pub enum LedgerError {
    InsufficientFunds,
    InsufficientLocked,
    Overflow,
}

/// One user's cash: `balance` is available, `locked` is reserved for resting orders.
#[derive(Clone, Copy, Debug, PartialEq, Eq, Structural)]
pub struct UserBalance {
    pub balance: u64,
    pub locked: u64,
}

impl UserBalance {
    pub open spec fn total(self) -> int {
        self.balance + self.locked
    }
}

pub open spec fn reserved(b: UserBalance, amount: u64) -> UserBalance {
    UserBalance { balance: (b.balance - amount) as u64, locked: (b.locked + amount) as u64 }
}

pub open spec fn released(b: UserBalance, amount: u64) -> UserBalance {
    UserBalance { balance: (b.balance + amount) as u64, locked: (b.locked - amount) as u64 }
}

pub open spec fn credited(b: UserBalance, amount: u64) -> UserBalance {
    UserBalance { balance: (b.balance + amount) as u64, locked: b.locked }
}

pub open spec fn debited(b: UserBalance, amount: u64) -> UserBalance {
    UserBalance { balance: (b.balance - amount) as u64, locked: b.locked }
}

pub open spec fn debited_locked(b: UserBalance, amount: u64) -> UserBalance {
    UserBalance { balance: b.balance, locked: (b.locked - amount) as u64 }
}

/// Reserving an amount and then releasing it restores the account exactly.
pub proof fn lemma_reserve_release_round_trip(b: UserBalance, amount: u64)
    requires
        amount <= b.balance,
        b.locked + amount <= u64::MAX,
    ensures
        released(reserved(b, amount), amount) == b,
{
}

/// Account fields are unsigned, so no balance is ever negative.
pub proof fn lemma_balances_nonnegative(ledger: InrBalance, user_id: Seq<char>)
    requires
        ledger.accounts().contains_key(user_id),
    ensures
        ledger.accounts()[user_id].balance >= 0,
        ledger.accounts()[user_id].locked >= 0,
{
}

struct CashRow {
    user_id: String,
    funds: UserBalance,
}

/// The cash ledger: one account per user id.
pub struct InrBalance {
    user_balances: Vec<CashRow>,
}

spec fn cash_sum(rows: Seq<CashRow>) -> int
    decreases rows.len(),
{
    if rows.len() == 0 {
        0
    } else {
        cash_sum(rows.drop_last()) + rows.last().funds.total()
    }
}

proof fn lemma_cash_sum_update(rows: Seq<CashRow>, i: int, r: CashRow)
    requires
        0 <= i < rows.len(),
    ensures
        cash_sum(rows.update(i, r)) == cash_sum(rows) - rows[i].funds.total() + r.funds.total(),
    decreases rows.len(),
{
    if i == rows.len() - 1 {
        assert(rows.update(i, r).drop_last() =~= rows.drop_last());
    } else {
        lemma_cash_sum_update(rows.drop_last(), i, r);
        assert(rows.update(i, r).drop_last() =~= rows.drop_last().update(i, r));
    }
}

impl InrBalance {
    /// User ids are unique.
    pub closed spec fn wf(&self) -> bool {
        forall|i: int, j: int|
            0 <= i < j < self.user_balances@.len() ==> self.user_balances@[i].user_id@
                != self.user_balances@[j].user_id@
    }

    spec fn has_row(&self, u: Seq<char>) -> bool {
        exists|i: int| 0 <= i < self.user_balances@.len() && self.user_balances@[i].user_id@ == u
    }

    spec fn index_of(&self, u: Seq<char>) -> int {
        choose|i: int| 0 <= i < self.user_balances@.len() && self.user_balances@[i].user_id@ == u
    }

    /// Each user's account, by user id.
    pub closed spec fn accounts(&self) -> Map<Seq<char>, UserBalance> {
        Map::new(|u: Seq<char>| self.has_row(u), |u: Seq<char>| self.user_balances@[self.index_of(u)].funds)
    }

    /// The account of `user_id`; an empty one where the user has none yet.
    pub open spec fn account(&self, user_id: Seq<char>) -> UserBalance {
        if self.accounts().contains_key(user_id) {
            self.accounts()[user_id]
        } else {
            UserBalance { balance: 0, locked: 0 }
        }
    }

    /// The available cash of `user_id`; none where the user has no account.
    pub open spec fn available(&self, user_id: Seq<char>) -> int {
        self.account(user_id).balance as int
    }

    /// All cash held, available and locked, over all users.
    pub closed spec fn total(&self) -> int {
        cash_sum(self.user_balances@)
    }

    proof fn lemma_row(&self, i: int)
        requires
            self.wf(),
            0 <= i < self.user_balances@.len(),
        ensures
            self.index_of(self.user_balances@[i].user_id@) == i,
            self.accounts().contains_key(self.user_balances@[i].user_id@),
            self.accounts()[self.user_balances@[i].user_id@] == self.user_balances@[i].funds,
    {
        let u = self.user_balances@[i].user_id@;
        assert(self.has_row(u));
        let k = self.index_of(u);
        assert(k == i) by {
            if k < i {
                assert(self.user_balances@[k].user_id@ != self.user_balances@[i].user_id@);
            } else if k > i {
                assert(self.user_balances@[i].user_id@ != self.user_balances@[k].user_id@);
            }
        }
    }

    pub fn new() -> (r: Self)
        ensures
            r.wf(),
            r.accounts() == Map::<Seq<char>, UserBalance>::empty(),
            r.total() == 0,
    {
        let r = InrBalance { user_balances: Vec::new() };
        assert(r.accounts() =~= Map::<Seq<char>, UserBalance>::empty());
        r
    }

    fn find(&self, user_id: &String) -> (r: Option<usize>)
        requires
            self.wf(),
        ensures
            match r {
                Some(i) => i < self.user_balances@.len() && self.user_balances@[i as int].user_id@
                    == user_id@,
                None => !self.accounts().contains_key(user_id@),
            },
    {
        let mut i: usize = 0;
        while i < self.user_balances.len()
            invariant
                i <= self.user_balances@.len(),
                forall|j: int| 0 <= j < i ==> self.user_balances@[j].user_id@ != user_id@,
            decreases self.user_balances@.len() - i,
        {
            if self.user_balances[i].user_id == *user_id {
                return Some(i);
            }
            i = i + 1;
        }
        None
    }

    fn set_funds(&mut self, i: usize, funds: UserBalance)
        requires
            old(self).wf(),
            i < old(self).user_balances@.len(),
        ensures
            final(self).wf(),
            final(self).accounts() == old(self).accounts().insert(
                old(self).user_balances@[i as int].user_id@,
                funds,
            ),
            final(self).total() == old(self).total() - old(self).user_balances@[i as int].funds.total()
                + funds.total(),
    {
        let ghost pre = *self;
        let user_id = self.user_balances[i].user_id.clone();
        let row = CashRow { user_id, funds };
        self.user_balances.set(i, row);
        proof {
            let u = pre.user_balances@[i as int].user_id@;
            lemma_cash_sum_update(pre.user_balances@, i as int, row);
            assert(self.user_balances@ == pre.user_balances@.update(i as int, row));
            assert(self.wf());
            assert forall|v: Seq<char>| #[trigger] self.accounts().contains_key(v) == pre.accounts().insert(u, funds).contains_key(v) by {
                if self.has_row(v) {
                    let k = choose|k: int| 0 <= k < self.user_balances@.len() && self.user_balances@[k].user_id@ == v;
                    assert(pre.user_balances@[k].user_id@ == v);
                }
                if pre.has_row(v) {
                    let k = choose|k: int| 0 <= k < pre.user_balances@.len() && pre.user_balances@[k].user_id@ == v;
                    assert(self.user_balances@[k].user_id@ == v);
                }
            }
            assert forall|v: Seq<char>| #[trigger] self.accounts().contains_key(v) implies self.accounts()[v]
                == pre.accounts().insert(u, funds)[v] by {
                let k = choose|k: int| 0 <= k < self.user_balances@.len() && self.user_balances@[k].user_id@ == v;
                self.lemma_row(k);
                if k != i {
                    pre.lemma_row(k);
                }
            }
            assert(self.accounts() =~= pre.accounts().insert(u, funds));
        }
    }

    /// Opens an empty account for `user_id`; an existing account is left as it is.
    pub fn add_user(&mut self, user_id: String)
        requires
            old(self).wf(),
        ensures
            final(self).wf(),
            final(self).accounts() == if old(self).accounts().contains_key(user_id@) {
                old(self).accounts()
            } else {
                old(self).accounts().insert(user_id@, UserBalance { balance: 0, locked: 0 })
            },
            final(self).total() == old(self).total(),
    {
        match self.find(&user_id) {
            Some(_) => {},
            None => {
                let ghost pre = *self;
                let ghost u = user_id@;
                let funds = UserBalance { balance: 0, locked: 0 };
                let row = CashRow { user_id, funds };
                self.user_balances.push(row);
                proof {
                    let n = pre.user_balances@.len() as int;
                    assert(self.user_balances@.drop_last() =~= pre.user_balances@);
                    assert forall|k: int| 0 <= k < n implies pre.user_balances@[k].user_id@ != u by {
                        if pre.user_balances@[k].user_id@ == u {
                            assert(pre.has_row(u));
                        }
                    }
                    assert(self.wf());
                    assert forall|v: Seq<char>| #[trigger] self.accounts().contains_key(v) == pre.accounts().insert(u, funds).contains_key(v) by {
                        if self.has_row(v) {
                            let k = choose|k: int| 0 <= k < self.user_balances@.len() && self.user_balances@[k].user_id@ == v;
                            if k < n {
                                assert(pre.user_balances@[k].user_id@ == v);
                            }
                        }
                        if pre.has_row(v) {
                            let k = choose|k: int| 0 <= k < pre.user_balances@.len() && pre.user_balances@[k].user_id@ == v;
                            assert(self.user_balances@[k].user_id@ == v);
                        }
                        if v == u {
                            assert(self.user_balances@[n].user_id@ == v);
                        }
                    }
                    assert forall|v: Seq<char>| #[trigger] self.accounts().contains_key(v) implies self.accounts()[v]
                        == pre.accounts().insert(u, funds)[v] by {
                        let k = choose|k: int| 0 <= k < self.user_balances@.len() && self.user_balances@[k].user_id@ == v;
                        self.lemma_row(k);
                        if k < n {
                            pre.lemma_row(k);
                        }
                    }
                    assert(self.accounts() =~= pre.accounts().insert(u, funds));
                }
            },
        }
    }

    /// The account of `user_id`, if it has one.
    pub fn get_balance(&self, user_id: String) -> (r: Option<UserBalance>)
        requires
            self.wf(),
        ensures
            r == if self.accounts().contains_key(user_id@) {
                Some(self.accounts()[user_id@])
            } else {
                None::<UserBalance>
            },
    {
        match self.find(&user_id) {
            Some(i) => {
                proof {
                    self.lemma_row(i as int);
                }
                Some(self.user_balances[i].funds)
            },
            None => None,
        }
    }
    /// Credits `amount` to the available cash of `user_id`, opening the account if needed.
    pub fn increase_bal(&mut self, user_id: String, amount: u64) -> (r: Result<(), LedgerError>)
        requires
            old(self).wf(),
        ensures
            final(self).wf(),
            ({
                let f = old(self).account(user_id@);
                if f.balance + amount > u64::MAX {
                    r == Err::<(), LedgerError>(LedgerError::Overflow)
                } else {
                    &&& r == Ok::<(), LedgerError>(())
                    &&& final(self).accounts() == old(self).accounts().insert(user_id@, credited(f, amount))
                    &&& final(self).total() == old(self).total() + amount
                }
            }),
            r.is_err() ==> final(self).accounts() == old(self).accounts() && final(self).total()
                == old(self).total(),
    {
        let f = self.read(&user_id);
        if amount > u64::MAX - f.balance {
            Err(LedgerError::Overflow)
        } else {
            self.write(&user_id, UserBalance { balance: f.balance + amount, locked: f.locked });
            Ok(())
        }
    }

    /// Debits `amount` from the available cash of `user_id`.
    pub fn deduct_balance(&mut self, user_id: String, amount: u64) -> (r: Result<(), LedgerError>)
        requires
            old(self).wf(),
        ensures
            final(self).wf(),
            ({
                let f = old(self).account(user_id@);
                if f.balance < amount {
                    r == Err::<(), LedgerError>(LedgerError::InsufficientFunds)
                } else {
                    &&& r == Ok::<(), LedgerError>(())
                    &&& final(self).accounts() == old(self).accounts().insert(user_id@, debited(f, amount))
                    &&& final(self).total() == old(self).total() - amount
                }
            }),
            r.is_err() ==> final(self).accounts() == old(self).accounts() && final(self).total()
                == old(self).total(),
    {
        let f = self.read(&user_id);
        if f.balance < amount {
            Err(LedgerError::InsufficientFunds)
        } else {
            self.write(&user_id, UserBalance { balance: f.balance - amount, locked: f.locked });
            Ok(())
        }
    }

    /// Reserves `amount`: moves it from available to locked.
    pub fn lock_balance(&mut self, user_id: String, amount: u64) -> (r: Result<(), LedgerError>)
        requires
            old(self).wf(),
        ensures
            final(self).wf(),
            ({
                let f = old(self).account(user_id@);
                if f.balance < amount {
                    r == Err::<(), LedgerError>(LedgerError::InsufficientFunds)
                } else if f.locked + amount > u64::MAX {
                    r == Err::<(), LedgerError>(LedgerError::Overflow)
                } else {
                    &&& r == Ok::<(), LedgerError>(())
                    &&& final(self).accounts() == old(self).accounts().insert(user_id@, reserved(f, amount))
                    &&& final(self).total() == old(self).total()
                }
            }),
            r.is_err() ==> final(self).accounts() == old(self).accounts() && final(self).total()
                == old(self).total(),
    {
        let f = self.read(&user_id);
        if f.balance < amount {
            Err(LedgerError::InsufficientFunds)
        } else if amount > u64::MAX - f.locked {
            Err(LedgerError::Overflow)
        } else {
            self.write(&user_id, UserBalance { balance: f.balance - amount, locked: f.locked + amount });
            Ok(())
        }
    }

    /// Releases `amount`: moves it from locked back to available.
    pub fn unlock_balance(&mut self, user_id: String, amount: u64) -> (r: Result<(), LedgerError>)
        requires
            old(self).wf(),
        ensures
            final(self).wf(),
            ({
                let f = old(self).account(user_id@);
                if f.locked < amount {
                    r == Err::<(), LedgerError>(LedgerError::InsufficientLocked)
                } else if f.balance + amount > u64::MAX {
                    r == Err::<(), LedgerError>(LedgerError::Overflow)
                } else {
                    &&& r == Ok::<(), LedgerError>(())
                    &&& final(self).accounts() == old(self).accounts().insert(user_id@, released(f, amount))
                    &&& final(self).total() == old(self).total()
                }
            }),
            r.is_err() ==> final(self).accounts() == old(self).accounts() && final(self).total()
                == old(self).total(),
    {
        let f = self.read(&user_id);
        if f.locked < amount {
            Err(LedgerError::InsufficientLocked)
        } else if amount > u64::MAX - f.balance {
            Err(LedgerError::Overflow)
        } else {
            self.write(&user_id, UserBalance { balance: f.balance + amount, locked: f.locked - amount });
            Ok(())
        }
    }

    /// Spends `amount` of the locked cash of `user_id`.
    pub fn deduct_locked(&mut self, user_id: String, amount: u64) -> (r: Result<(), LedgerError>)
        requires
            old(self).wf(),
        ensures
            final(self).wf(),
            ({
                let f = old(self).account(user_id@);
                if f.locked < amount {
                    r == Err::<(), LedgerError>(LedgerError::InsufficientLocked)
                } else {
                    &&& r == Ok::<(), LedgerError>(())
                    &&& final(self).accounts() == old(self).accounts().insert(user_id@, debited_locked(f, amount))
                    &&& final(self).total() == old(self).total() - amount
                }
            }),
            r.is_err() ==> final(self).accounts() == old(self).accounts() && final(self).total()
                == old(self).total(),
    {
        let f = self.read(&user_id);
        if f.locked < amount {
            Err(LedgerError::InsufficientLocked)
        } else {
            self.write(&user_id, UserBalance { balance: f.balance, locked: f.locked - amount });
            Ok(())
        }
    }

    /// The account of `user_id`, empty where it has none, read by executable code.
    pub fn read(&self, user_id: &String) -> (r: UserBalance)
        requires
            self.wf(),
        ensures
            r == self.account(user_id@),
    {
        match self.find(user_id) {
            Some(i) => {
                proof {
                    self.lemma_row(i as int);
                }
                self.user_balances[i].funds
            },
            None => UserBalance { balance: 0, locked: 0 },
        }
    }

    fn write(&mut self, user_id: &String, funds: UserBalance)
        requires
            old(self).wf(),
        ensures
            final(self).wf(),
            final(self).accounts() == old(self).accounts().insert(user_id@, funds),
            final(self).total() == old(self).total() - old(self).account(user_id@).total() + funds.total(),
    {
        self.add_user(user_id.clone());
        match self.find(user_id) {
            Some(i) => {
                proof {
                    self.lemma_row(i as int);
                }
                self.set_funds(i, funds);
                proof {
                    assert(old(self).accounts().insert(user_id@, funds) =~= self.accounts());
                }
            },
            None => {},
        }
    }
    /// A copy of the ledger, account for account.
    pub fn duplicate(&self) -> (r: Self)
        requires
            self.wf(),
        ensures
            r.wf(),
            r.accounts() == self.accounts(),
            r.total() == self.total(),
    {
        let mut rows: Vec<CashRow> = Vec::new();
        let mut i: usize = 0;
        while i < self.user_balances.len()
            invariant
                i <= self.user_balances@.len(),
                rows@ == self.user_balances@.take(i as int),
            decreases self.user_balances@.len() - i,
        {
            let row = CashRow { user_id: self.user_balances[i].user_id.clone(), funds: self.user_balances[i].funds };
            rows.push(row);
            proof {
                assert(rows@ =~= self.user_balances@.take(i + 1));
            }
            i = i + 1;
        }
        proof {
            assert(rows@ =~= self.user_balances@);
        }
        let r = InrBalance { user_balances: rows };
        proof {
            assert(r.accounts() =~= self.accounts());
        }
        r
    }
}

} // verus!
