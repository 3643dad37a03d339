use vstd::prelude::*;
use crate::inr_balance::LedgerError;
use crate::orderbook::StockType;

verus! {

/// Shares of one outcome: `quantity` is available, `locked` is reserved for resting orders.
#[derive(Clone, Copy, Debug, PartialEq, Eq, Structural)]
pub struct StockQuantity {
    pub quantity: u64,
    pub locked: u64,
}

impl StockQuantity {
    pub open spec fn total(self) -> int {
        self.quantity + self.locked
    }
}

/// A user's shares in one market, by outcome.
#[derive(Clone, Copy, Debug, PartialEq, Eq, Structural)]
pub struct UserStocks {
    pub yes: StockQuantity,
    pub no: StockQuantity,
}

pub open spec fn no_stocks() -> UserStocks {
    UserStocks {
        yes: StockQuantity { quantity: 0, locked: 0 },
        no: StockQuantity { quantity: 0, locked: 0 },
    }
}

pub open spec fn side_of(st: UserStocks, outcome: StockType) -> StockQuantity {
    match outcome {
        StockType::Yes => st.yes,
        StockType::No => st.no,
    }
}

pub open spec fn with_side(st: UserStocks, outcome: StockType, q: StockQuantity) -> UserStocks {
    match outcome {
        StockType::Yes => UserStocks { yes: q, no: st.no },
        StockType::No => UserStocks { yes: st.yes, no: q },
    }
}

pub(crate) fn get_side(st: &UserStocks, outcome: StockType) -> (r: StockQuantity)
    ensures
        r == side_of(*st, outcome),
{
    match outcome {
        StockType::Yes => st.yes,
        StockType::No => st.no,
    }
}

fn put_side(st: &UserStocks, outcome: StockType, q: StockQuantity) -> (r: UserStocks)
    ensures
        r == with_side(*st, outcome, q),
{
    match outcome {
        StockType::Yes => UserStocks { yes: q, no: st.no },
        StockType::No => UserStocks { yes: st.yes, no: q },
    }
}

/// Position fields are unsigned, so no share count is ever negative.
pub proof fn lemma_shares_nonnegative(ledger: StockBalance, user_id: Seq<char>, symbol: Seq<char>, outcome: StockType)
    ensures
        side_of(ledger.holding(user_id, symbol), outcome).quantity >= 0,
        side_of(ledger.holding(user_id, symbol), outcome).locked >= 0,
{
}

struct StockRow {
    user_id: String,
    stock_symbol: String,
    stocks: UserStocks,
}

spec fn row_part(r: StockRow, sym: Seq<char>, outcome: StockType) -> int {
    if r.stock_symbol@ == sym {
        side_of(r.stocks, outcome).total()
    } else {
        0
    }
}

spec fn share_sum(rows: Seq<StockRow>, sym: Seq<char>, outcome: StockType) -> int
    decreases rows.len(),
{
    if rows.len() == 0 {
        0
    } else {
        share_sum(rows.drop_last(), sym, outcome) + row_part(rows.last(), sym, outcome)
    }
}

proof fn lemma_share_sum_update(rows: Seq<StockRow>, i: int, r: StockRow, sym: Seq<char>, outcome: StockType)
    requires
        0 <= i < rows.len(),
    ensures
        share_sum(rows.update(i, r), sym, outcome) == share_sum(rows, sym, outcome) - row_part(
            rows[i],
            sym,
            outcome,
        ) + row_part(r, sym, outcome),
    decreases rows.len(),
{
    if i == rows.len() - 1 {
        assert(rows.update(i, r).drop_last() =~= rows.drop_last());
    } else {
        lemma_share_sum_update(rows.drop_last(), i, r, sym, outcome);
        assert(rows.update(i, r).drop_last() =~= rows.drop_last().update(i, r));
    }
}

spec fn listed(r: Seq<(String, UserStocks)>, symbol: Seq<char>) -> bool {
    exists|j: int| 0 <= j < r.len() && r[j].0@ == symbol
}

/// The share ledger: one position per user and market symbol.
pub struct StockBalance {
    user_stocks: Vec<StockRow>,
}

impl StockBalance {
    /// (user, symbol) pairs are unique.
    pub closed spec fn wf(&self) -> bool {
        forall|i: int, j: int|
            0 <= i < j < self.user_stocks@.len() ==> !(self.user_stocks@[i].user_id@
                == self.user_stocks@[j].user_id@ && self.user_stocks@[i].stock_symbol@
                == self.user_stocks@[j].stock_symbol@)
    }

    spec fn matches(&self, i: int, u: Seq<char>, s: Seq<char>) -> bool {
        0 <= i < self.user_stocks@.len() && self.user_stocks@[i].user_id@ == u
            && self.user_stocks@[i].stock_symbol@ == s
    }

    spec fn has_row(&self, u: Seq<char>, s: Seq<char>) -> bool {
        exists|i: int| self.matches(i, u, s)
    }

    /// The shares of `user_id` in market `symbol`; none where the user never held any.
    pub closed spec fn holding(&self, user_id: Seq<char>, symbol: Seq<char>) -> UserStocks {
        if self.has_row(user_id, symbol) {
            self.user_stocks@[choose|i: int| self.matches(i, user_id, symbol)].stocks
        } else {
            no_stocks()
        }
    }

    /// All shares of one outcome of one market, available and locked, over all users.
    pub closed spec fn share_total(&self, symbol: Seq<char>, outcome: StockType) -> int {
        share_sum(self.user_stocks@, symbol, outcome)
    }

    proof fn lemma_row(&self, i: int)
        requires
            self.wf(),
            0 <= i < self.user_stocks@.len(),
        ensures
            self.holding(self.user_stocks@[i].user_id@, self.user_stocks@[i].stock_symbol@)
                == self.user_stocks@[i].stocks,
    {
        let u = self.user_stocks@[i].user_id@;
        let s = self.user_stocks@[i].stock_symbol@;
        assert(self.matches(i, u, s));
        let k = choose|k: int| self.matches(k, u, s);
        assert(k == i) by {
            if k < i {
                assert(!(self.user_stocks@[k].user_id@ == u && self.user_stocks@[k].stock_symbol@ == s));
            } else if k > i {
                assert(!(self.user_stocks@[i].user_id@ == self.user_stocks@[k].user_id@
                    && self.user_stocks@[i].stock_symbol@ == self.user_stocks@[k].stock_symbol@));
            }
        }
    }

    pub fn new() -> (r: Self)
        ensures
            r.wf(),
            forall|u: Seq<char>, s: Seq<char>| #[trigger] r.holding(u, s) == no_stocks(),
            forall|s: Seq<char>, o: StockType| #[trigger] r.share_total(s, o) == 0,
    {
        StockBalance { user_stocks: Vec::new() }
    }

    fn find(&self, user_id: &String, symbol: &String) -> (r: Option<usize>)
        requires
            self.wf(),
        ensures
            match r {
                Some(i) => self.matches(i as int, user_id@, symbol@),
                None => !self.has_row(user_id@, symbol@),
            },
    {
        let mut i: usize = 0;
        while i < self.user_stocks.len()
            invariant
                i <= self.user_stocks@.len(),
                forall|j: int| 0 <= j < i ==> !self.matches(j, user_id@, symbol@),
            decreases self.user_stocks@.len() - i,
        {
            if self.user_stocks[i].user_id == *user_id && self.user_stocks[i].stock_symbol == *symbol {
                return Some(i);
            }
            i = i + 1;
        }
        None
    }

    /// Holding of `user_id` in `symbol`, read by executable code.
    fn read(&self, user_id: &String, symbol: &String) -> (r: UserStocks)
        requires
            self.wf(),
        ensures
            r == self.holding(user_id@, symbol@),
    {
        match self.find(user_id, symbol) {
            Some(i) => {
                proof {
                    self.lemma_row(i as int);
                }
                self.user_stocks[i].stocks
            },
            None => UserStocks {
                yes: StockQuantity { quantity: 0, locked: 0 },
                no: StockQuantity { quantity: 0, locked: 0 },
            },
        }
    }

    fn write(&mut self, user_id: &String, symbol: &String, stocks: UserStocks)
        requires
            old(self).wf(),
        ensures
            final(self).wf(),
            forall|u: Seq<char>, s: Seq<char>| #[trigger] final(self).holding(u, s) == if u
                == user_id@ && s == symbol@ {
                stocks
            } else {
                old(self).holding(u, s)
            },
            forall|s: Seq<char>, o: StockType| #[trigger] final(self).share_total(s, o) == if s
                == symbol@ {
                old(self).share_total(s, o) - side_of(old(self).holding(user_id@, symbol@), o).total()
                    + side_of(stocks, o).total()
            } else {
                old(self).share_total(s, o)
            },
    {
        let ghost pre = *self;
        let ghost u0 = user_id@;
        let ghost s0 = symbol@;
        match self.find(user_id, symbol) {
            Some(i) => {
                let uid = self.user_stocks[i].user_id.clone();
                let sym = self.user_stocks[i].stock_symbol.clone();
                let row = StockRow { user_id: uid, stock_symbol: sym, stocks };
                self.user_stocks.set(i, row);
                proof {
                    pre.lemma_row(i as int);
                    assert(self.user_stocks@ == pre.user_stocks@.update(i as int, row));
                    assert(self.wf());
                    assert forall|s: Seq<char>, o: StockType| #[trigger] self.share_total(s, o) == if s
                        == s0 {
                        pre.share_total(s, o) - side_of(pre.holding(u0, s0), o).total() + side_of(stocks, o).total()
                    } else {
                        pre.share_total(s, o)
                    } by {
                        lemma_share_sum_update(pre.user_stocks@, i as int, row, s, o);
                    }
                    assert forall|u: Seq<char>, s: Seq<char>| #[trigger] self.holding(u, s) == if u
                        == u0 && s == s0 {
                        stocks
                    } else {
                        pre.holding(u, s)
                    } by {
                        if self.has_row(u, s) {
                            let k = choose|k: int| self.matches(k, u, s);
                            self.lemma_row(k);
                            if k != i {
                                pre.lemma_row(k);
                            }
                        } else if pre.has_row(u, s) {
                            let k = choose|k: int| pre.matches(k, u, s);
                            assert(self.matches(k, u, s));
                        }
                    }
                }
            },
            None => {
                let uid = user_id.clone();
                let sym = symbol.clone();
                let row = StockRow { user_id: uid, stock_symbol: sym, stocks };
                self.user_stocks.push(row);
                proof {
                    let n = pre.user_stocks@.len() as int;
                    assert(self.user_stocks@.drop_last() =~= pre.user_stocks@);
                    assert(self.user_stocks@[n] == row);
                    assert forall|k: int| 0 <= k < n implies !pre.matches(k, u0, s0) by {
                        if pre.matches(k, u0, s0) {
                            assert(pre.has_row(u0, s0));
                        }
                    }
                    assert forall|k: int| 0 <= k < n implies #[trigger] self.user_stocks@[k]
                        == pre.user_stocks@[k] by {}
                    assert(self.user_stocks@[n].user_id@ == u0);
                    assert(self.user_stocks@[n].stock_symbol@ == s0);
                    assert forall|i: int, j: int| 0 <= i < j < self.user_stocks@.len() implies !(
                    self.user_stocks@[i].user_id@ == self.user_stocks@[j].user_id@
                        && self.user_stocks@[i].stock_symbol@ == self.user_stocks@[j].stock_symbol@) by {
                        if j == n {
                            assert(!pre.matches(i, u0, s0));
                        } else {
                            assert(!(pre.user_stocks@[i].user_id@ == pre.user_stocks@[j].user_id@
                                && pre.user_stocks@[i].stock_symbol@ == pre.user_stocks@[j].stock_symbol@));
                        }
                    }
                    assert(self.wf());
                    assert forall|u: Seq<char>, s: Seq<char>| #[trigger] self.holding(u, s) == if u
                        == u0 && s == s0 {
                        stocks
                    } else {
                        pre.holding(u, s)
                    } by {
                        if self.has_row(u, s) {
                            let k = choose|k: int| self.matches(k, u, s);
                            self.lemma_row(k);
                            if k < n {
                                assert(self.user_stocks@[k] == pre.user_stocks@[k]);
                                assert(pre.matches(k, u, s));
                                pre.lemma_row(k);
                            } else {
                                assert(u == u0 && s == s0);
                            }
                        } else if pre.has_row(u, s) {
                            let k = choose|k: int| pre.matches(k, u, s);
                            assert(self.user_stocks@[k] == pre.user_stocks@[k]);
                            assert(self.matches(k, u, s));
                        } else if u == u0 && s == s0 {
                            assert(self.matches(n, u, s));
                        }
                    }
                }
            },
        }
    }
    /// Credits `quantity` available shares of one outcome to a user's position.
    pub fn increase_stock_quantity(
        &mut self,
        user_id: String,
        stock_symbol: String,
        stock_type: StockType,
        quantity: u64,
    ) -> (r: Result<(), LedgerError>)
        requires
            old(self).wf(),
        ensures
            final(self).wf(),
            ({
                let q = side_of(old(self).holding(user_id@, stock_symbol@), stock_type);
                if q.quantity + quantity > u64::MAX {
                    r == Err::<(), LedgerError>(LedgerError::Overflow)
                } else {
                    r == Ok::<(), LedgerError>(())
                }
            }),
            forall|u: Seq<char>, s: Seq<char>| #[trigger] final(self).holding(u, s) == if r.is_ok()
                && u == user_id@ && s == stock_symbol@ {
                with_side(
                    old(self).holding(u, s),
                    stock_type,
                    StockQuantity { quantity: (side_of(old(self).holding(u, s), stock_type).quantity + quantity) as u64, locked: (side_of(old(self).holding(u, s), stock_type).locked) as u64 },
                )
            } else {
                old(self).holding(u, s)
            },
            forall|s: Seq<char>, o: StockType| #[trigger] final(self).share_total(s, o) == if r.is_ok()
                && s == stock_symbol@ && o == stock_type {
                old(self).share_total(s, o) + quantity
            } else {
                old(self).share_total(s, o)
            },
    {
        let st = self.read(&user_id, &stock_symbol);
        let q = get_side(&st, stock_type);
        if quantity > u64::MAX - q.quantity {
            Err(LedgerError::Overflow)
        } else {
            let nq = StockQuantity { quantity: q.quantity + quantity, locked: q.locked };
            let nst = put_side(&st, stock_type, nq);
            self.write(&user_id, &stock_symbol, nst);
            Ok(())
        }
    }

    /// Debits `quantity` available shares of one outcome from a user's position.
    pub fn decrease_stock_quantity(
        &mut self,
        user_id: String,
        stock_symbol: String,
        stock_type: StockType,
        quantity: u64,
    ) -> (r: Result<(), LedgerError>)
        requires
            old(self).wf(),
        ensures
            final(self).wf(),
            ({
                let q = side_of(old(self).holding(user_id@, stock_symbol@), stock_type);
                if q.quantity < quantity {
                    r == Err::<(), LedgerError>(LedgerError::InsufficientFunds)
                } else {
                    r == Ok::<(), LedgerError>(())
                }
            }),
            forall|u: Seq<char>, s: Seq<char>| #[trigger] final(self).holding(u, s) == if r.is_ok()
                && u == user_id@ && s == stock_symbol@ {
                with_side(
                    old(self).holding(u, s),
                    stock_type,
                    StockQuantity { quantity: (side_of(old(self).holding(u, s), stock_type).quantity - quantity) as u64, locked: (side_of(old(self).holding(u, s), stock_type).locked) as u64 },
                )
            } else {
                old(self).holding(u, s)
            },
            forall|s: Seq<char>, o: StockType| #[trigger] final(self).share_total(s, o) == if r.is_ok()
                && s == stock_symbol@ && o == stock_type {
                old(self).share_total(s, o) - quantity
            } else {
                old(self).share_total(s, o)
            },
    {
        let st = self.read(&user_id, &stock_symbol);
        let q = get_side(&st, stock_type);
        if q.quantity < quantity {
            Err(LedgerError::InsufficientFunds)
        } else {
            let nq = StockQuantity { quantity: q.quantity - quantity, locked: q.locked };
            let nst = put_side(&st, stock_type, nq);
            self.write(&user_id, &stock_symbol, nst);
            Ok(())
        }
    }

    /// Reserves `quantity` shares: moves them from available to locked.
    pub fn lock_stock(
        &mut self,
        user_id: String,
        stock_symbol: String,
        stock_type: StockType,
        quantity: u64,
    ) -> (r: Result<(), LedgerError>)
        requires
            old(self).wf(),
        ensures
            final(self).wf(),
            ({
                let q = side_of(old(self).holding(user_id@, stock_symbol@), stock_type);
                if q.quantity < quantity {
                    r == Err::<(), LedgerError>(LedgerError::InsufficientFunds)
                } else if q.locked + quantity > u64::MAX {
                    r == Err::<(), LedgerError>(LedgerError::Overflow)
                } else {
                    r == Ok::<(), LedgerError>(())
                }
            }),
            forall|u: Seq<char>, s: Seq<char>| #[trigger] final(self).holding(u, s) == if r.is_ok()
                && u == user_id@ && s == stock_symbol@ {
                with_side(
                    old(self).holding(u, s),
                    stock_type,
                    StockQuantity { quantity: (side_of(old(self).holding(u, s), stock_type).quantity - quantity) as u64, locked: (side_of(old(self).holding(u, s), stock_type).locked + quantity) as u64 },
                )
            } else {
                old(self).holding(u, s)
            },
            forall|s: Seq<char>, o: StockType| #[trigger] final(self).share_total(s, o) == if r.is_ok()
                && s == stock_symbol@ && o == stock_type {
                old(self).share_total(s, o) 
            } else {
                old(self).share_total(s, o)
            },
    {
        let st = self.read(&user_id, &stock_symbol);
        let q = get_side(&st, stock_type);
        if q.quantity < quantity {
            Err(LedgerError::InsufficientFunds)
        } else if quantity > u64::MAX - q.locked {
            Err(LedgerError::Overflow)
        } else {
            let nq = StockQuantity { quantity: q.quantity - quantity, locked: q.locked + quantity };
            let nst = put_side(&st, stock_type, nq);
            self.write(&user_id, &stock_symbol, nst);
            Ok(())
        }
    }

    /// Releases `quantity` shares: moves them from locked back to available.
    pub fn unlock_stock(
        &mut self,
        user_id: String,
        stock_symbol: String,
        stock_type: StockType,
        quantity: u64,
    ) -> (r: Result<(), LedgerError>)
        requires
            old(self).wf(),
        ensures
            final(self).wf(),
            ({
                let q = side_of(old(self).holding(user_id@, stock_symbol@), stock_type);
                if q.locked < quantity {
                    r == Err::<(), LedgerError>(LedgerError::InsufficientLocked)
                } else if q.quantity + quantity > u64::MAX {
                    r == Err::<(), LedgerError>(LedgerError::Overflow)
                } else {
                    r == Ok::<(), LedgerError>(())
                }
            }),
            forall|u: Seq<char>, s: Seq<char>| #[trigger] final(self).holding(u, s) == if r.is_ok()
                && u == user_id@ && s == stock_symbol@ {
                with_side(
                    old(self).holding(u, s),
                    stock_type,
                    StockQuantity { quantity: (side_of(old(self).holding(u, s), stock_type).quantity + quantity) as u64, locked: (side_of(old(self).holding(u, s), stock_type).locked - quantity) as u64 },
                )
            } else {
                old(self).holding(u, s)
            },
            forall|s: Seq<char>, o: StockType| #[trigger] final(self).share_total(s, o) == if r.is_ok()
                && s == stock_symbol@ && o == stock_type {
                old(self).share_total(s, o) 
            } else {
                old(self).share_total(s, o)
            },
    {
        let st = self.read(&user_id, &stock_symbol);
        let q = get_side(&st, stock_type);
        if q.locked < quantity {
            Err(LedgerError::InsufficientLocked)
        } else if quantity > u64::MAX - q.quantity {
            Err(LedgerError::Overflow)
        } else {
            let nq = StockQuantity { quantity: q.quantity + quantity, locked: q.locked - quantity };
            let nst = put_side(&st, stock_type, nq);
            self.write(&user_id, &stock_symbol, nst);
            Ok(())
        }
    }

    /// Spends `quantity` of the locked shares of one outcome.
    pub fn deduct_locked_stock(
        &mut self,
        user_id: String,
        stock_symbol: String,
        stock_type: StockType,
        quantity: u64,
    ) -> (r: Result<(), LedgerError>)
        requires
            old(self).wf(),
        ensures
            final(self).wf(),
            ({
                let q = side_of(old(self).holding(user_id@, stock_symbol@), stock_type);
                if q.locked < quantity {
                    r == Err::<(), LedgerError>(LedgerError::InsufficientLocked)
                } else {
                    r == Ok::<(), LedgerError>(())
                }
            }),
            forall|u: Seq<char>, s: Seq<char>| #[trigger] final(self).holding(u, s) == if r.is_ok()
                && u == user_id@ && s == stock_symbol@ {
                with_side(
                    old(self).holding(u, s),
                    stock_type,
                    StockQuantity { quantity: (side_of(old(self).holding(u, s), stock_type).quantity) as u64, locked: (side_of(old(self).holding(u, s), stock_type).locked - quantity) as u64 },
                )
            } else {
                old(self).holding(u, s)
            },
            forall|s: Seq<char>, o: StockType| #[trigger] final(self).share_total(s, o) == if r.is_ok()
                && s == stock_symbol@ && o == stock_type {
                old(self).share_total(s, o) - quantity
            } else {
                old(self).share_total(s, o)
            },
    {
        let st = self.read(&user_id, &stock_symbol);
        let q = get_side(&st, stock_type);
        if q.locked < quantity {
            Err(LedgerError::InsufficientLocked)
        } else {
            let nq = StockQuantity { quantity: q.quantity, locked: q.locked - quantity };
            let nst = put_side(&st, stock_type, nq);
            self.write(&user_id, &stock_symbol, nst);
            Ok(())
        }
    }

    /// The position of `user_id` in market `stock_symbol`.
    pub fn get_stock_balance(&self, user_id: &String, stock_symbol: &String) -> (r: UserStocks)
        requires
            self.wf(),
        ensures
            r == self.holding(user_id@, stock_symbol@),
    {
        self.read(user_id, stock_symbol)
    }
    /// Whether `user_id` holds a position row in market `symbol`.
    pub closed spec fn has_position(&self, user_id: Seq<char>, symbol: Seq<char>) -> bool {
        self.has_row(user_id, symbol)
    }

    /// Every market in which `user_id` has a position, with that position.
    pub fn get_stocks(&self, user_id: &String) -> (r: Vec<(String, UserStocks)>)
        requires
            self.wf(),
        ensures
            forall|i: int|
                0 <= i < r@.len() ==> self.has_position(user_id@, (#[trigger] r@[i]).0@)
                    && self.holding(user_id@, r@[i].0@) == r@[i].1,
            forall|s: Seq<char>|
                #[trigger] self.has_position(user_id@, s) ==> exists|i: int|
                    0 <= i < r@.len() && r@[i].0@ == s,
    {
        let mut r: Vec<(String, UserStocks)> = Vec::new();
        let mut i: usize = 0;
        while i < self.user_stocks.len()
            invariant
                self.wf(),
                i <= self.user_stocks@.len(),
                forall|j: int|
                    0 <= j < r@.len() ==> self.has_position(user_id@, (#[trigger] r@[j]).0@)
                        && self.holding(user_id@, r@[j].0@) == r@[j].1,
                forall|k: int|
                    0 <= k < i && #[trigger] self.user_stocks@[k].user_id@ == user_id@ ==> listed(
                        r@,
                        self.user_stocks@[k].stock_symbol@,
                    ),
            decreases self.user_stocks@.len() - i,
        {
            let ghost r0 = r@;
            if self.user_stocks[i].user_id == *user_id {
                let entry = (self.user_stocks[i].stock_symbol.clone(), self.user_stocks[i].stocks);
                proof {
                    self.lemma_row(i as int);
                    assert(self.matches(i as int, user_id@, entry.0@));
                }
                r.push(entry);
                proof {
                    assert(r@[r@.len() - 1] == entry);
                }
            }
            proof {
                assert forall|k: int|
                    0 <= k < i + 1 && #[trigger] self.user_stocks@[k].user_id@ == user_id@ implies listed(
                        r@,
                        self.user_stocks@[k].stock_symbol@,
                    ) by {
                    if k == i {
                        assert(r@[r@.len() - 1].0@ == self.user_stocks@[k].stock_symbol@);
                    } else {
                        assert(listed(r0, self.user_stocks@[k].stock_symbol@));
                        let j = choose|j: int| 0 <= j < r0.len() && r0[j].0@ == self.user_stocks@[k].stock_symbol@;
                        assert(r@[j] == r0[j]);
                    }
                }
            }
            i = i + 1;
        }
        proof {
            assert forall|s: Seq<char>| #[trigger] self.has_position(user_id@, s) implies exists|j: int|
                0 <= j < r@.len() && r@[j].0@ == s by {
                let k = choose|k: int| self.matches(k, user_id@, s);
                assert(self.user_stocks@[k].user_id@ == user_id@);
                assert(listed(r@, s));
            }
        }
        r
    }
    /// A copy of the ledger, position for position.
    pub fn duplicate(&self) -> (r: Self)
        requires
            self.wf(),
        ensures
            r.wf(),
            forall|u: Seq<char>, s: Seq<char>| #[trigger] r.holding(u, s) == self.holding(u, s),
            forall|s: Seq<char>, o: StockType| #[trigger] r.share_total(s, o) == self.share_total(s, o),
    {
        let mut rows: Vec<StockRow> = Vec::new();
        let mut i: usize = 0;
        while i < self.user_stocks.len()
            invariant
                i <= self.user_stocks@.len(),
                rows@ == self.user_stocks@.take(i as int),
            decreases self.user_stocks@.len() - i,
        {
            let row = StockRow {
                user_id: self.user_stocks[i].user_id.clone(),
                stock_symbol: self.user_stocks[i].stock_symbol.clone(),
                stocks: self.user_stocks[i].stocks,
            };
            rows.push(row);
            proof {
                assert(rows@ =~= self.user_stocks@.take(i + 1));
            }
            i = i + 1;
        }
        proof {
            assert(rows@ =~= self.user_stocks@);
        }
        let r = StockBalance { user_stocks: rows };
        proof {
            assert forall|u: Seq<char>, s: Seq<char>| #[trigger] r.holding(u, s) == self.holding(u, s) by {
                if self.has_row(u, s) {
                    let k = choose|k: int| self.matches(k, u, s);
                    self.lemma_row(k);
                    r.lemma_row(k);
                } else {
                    assert(!r.has_row(u, s)) by {
                        if r.has_row(u, s) {
                            let k = choose|k: int| r.matches(k, u, s);
                            assert(self.matches(k, u, s));
                        }
                    }
                }
            }
        }
        r
    }
}

} // verus!
