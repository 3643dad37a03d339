use backend::inr_balance::{InrBalance, LedgerError, UserBalance};
use backend::orderbook::{Fill, OrderBook, OrderError, OrderType, StockType};
use backend::stock_balance::{StockBalance, StockQuantity};

fn s(x: &str) -> String {
    x.to_string()
}

struct World {
    book: OrderBook,
    cash: InrBalance,
    stocks: StockBalance,
}

fn world() -> World {
    let mut book = OrderBook::new();
    book.create_market(s("M")).unwrap();
    World { book, cash: InrBalance::new(), stocks: StockBalance::new() }
}

fn fund(w: &mut World, user: &str, amount: u64) {
    w.cash.add_user(s(user));
    w.cash.increase_bal(s(user), amount).unwrap();
}

fn give_shares(w: &mut World, user: &str, outcome: StockType, qty: u64) {
    w.stocks.increase_stock_quantity(s(user), s("M"), outcome, qty).unwrap();
}

fn cash_of(w: &World, user: &str) -> UserBalance {
    w.cash.get_balance(s(user)).unwrap()
}

fn yes_of(w: &World, user: &str) -> StockQuantity {
    w.stocks.get_stock_balance(&s(user), &s("M")).yes
}

#[test]
fn scenario_buy_rests_without_liquidity() {
    let mut w = world();
    fund(&mut w, "U1", 1000);
    let r = w.book.order_buy_yes(&mut w.cash, &mut w.stocks, s("U1"), s("M"), 60, 10).unwrap();
    assert_eq!(r.order_id, 1);
    assert!(r.fills.is_empty());
    assert_eq!(r.resting_qty, 10);
    assert_eq!(cash_of(&w, "U1"), UserBalance { balance: 400, locked: 600 });
}

#[test]
fn scenario_sell_fills_resting_buy() {
    let mut w = world();
    fund(&mut w, "U1", 1000);
    w.book.order_buy_yes(&mut w.cash, &mut w.stocks, s("U1"), s("M"), 60, 10).unwrap();
    give_shares(&mut w, "U2", StockType::Yes, 10);
    let r = w.book.order_sell_yes(&mut w.cash, &mut w.stocks, s("U2"), s("M"), 60, 10).unwrap();
    assert_eq!(r.order_id, 2);
    assert_eq!(r.fills, vec![Fill { maker_order_id: 1, taker_order_id: 2, price: 60, quantity: 10 }]);
    assert_eq!(r.resting_qty, 0);
    assert_eq!(yes_of(&w, "U1"), StockQuantity { quantity: 10, locked: 0 });
    assert_eq!(yes_of(&w, "U2"), StockQuantity { quantity: 0, locked: 0 });
    assert_eq!(cash_of(&w, "U1"), UserBalance { balance: 400, locked: 0 });
    assert_eq!(cash_of(&w, "U2"), UserBalance { balance: 600, locked: 0 });
    // both orders are filled: neither can be cancelled
    assert_eq!(w.book.cancel_order(&mut w.cash, &mut w.stocks, s("U1"), 1), Err(OrderError::OrderNotFound));
    assert_eq!(w.book.cancel_order(&mut w.cash, &mut w.stocks, s("U2"), 2), Err(OrderError::OrderNotFound));
}

#[test]
fn scenario_buyer_pays_maker_price() {
    let mut w = world();
    give_shares(&mut w, "S", StockType::Yes, 5);
    let maker = w.book.order_sell_yes(&mut w.cash, &mut w.stocks, s("S"), s("M"), 65, 5).unwrap();
    assert_eq!(maker.resting_qty, 5);
    fund(&mut w, "U3", 1000);
    let r = w.book.order_buy_yes(&mut w.cash, &mut w.stocks, s("U3"), s("M"), 70, 5).unwrap();
    assert_eq!(r.fills, vec![Fill { maker_order_id: 1, taker_order_id: 2, price: 65, quantity: 5 }]);
    assert_eq!(cash_of(&w, "U3"), UserBalance { balance: 675, locked: 0 });
    assert_eq!(cash_of(&w, "S"), UserBalance { balance: 325, locked: 0 });
    assert_eq!(yes_of(&w, "U3"), StockQuantity { quantity: 5, locked: 0 });
}

#[test]
fn scenario_no_cash_is_refused() {
    let mut w = world();
    w.cash.add_user(s("U4"));
    let r = w.book.order_buy_yes(&mut w.cash, &mut w.stocks, s("U4"), s("M"), 50, 1);
    assert!(matches!(r, Err(OrderError::InsufficientFunds)));
    assert_eq!(cash_of(&w, "U4"), UserBalance { balance: 0, locked: 0 });
    // no order was created: the next one gets the first id
    fund(&mut w, "U5", 100);
    let next = w.book.order_buy_yes(&mut w.cash, &mut w.stocks, s("U5"), s("M"), 50, 1).unwrap();
    assert_eq!(next.order_id, 1);
}

#[test]
fn unknown_user_has_no_cash() {
    let mut w = world();
    let r = w.book.order_buy_no(&mut w.cash, &mut w.stocks, s("nobody"), s("M"), 10, 1);
    assert!(matches!(r, Err(OrderError::InsufficientFunds)));
}

#[test]
fn validation_errors() {
    let mut w = world();
    fund(&mut w, "U", 1000);
    let r = w.book.order_buy_yes(&mut w.cash, &mut w.stocks, s("U"), s("X"), 50, 1);
    assert!(matches!(r, Err(OrderError::InvalidMarket)));
    let r = w.book.order_buy_yes(&mut w.cash, &mut w.stocks, s("U"), s("M"), 0, 1);
    assert!(matches!(r, Err(OrderError::InvalidPrice)));
    let r = w.book.order_buy_yes(&mut w.cash, &mut w.stocks, s("U"), s("M"), 100, 1);
    assert!(matches!(r, Err(OrderError::InvalidPrice)));
    let r = w.book.order_buy_yes(&mut w.cash, &mut w.stocks, s("U"), s("M"), 50, 0);
    assert!(matches!(r, Err(OrderError::InvalidQuantity)));
    let r = w.book.order_sell_no(&mut w.cash, &mut w.stocks, s("U"), s("M"), 50, 1);
    assert!(matches!(r, Err(OrderError::InsufficientShares)));
    assert_eq!(cash_of(&w, "U"), UserBalance { balance: 1000, locked: 0 });
}

#[test]
fn create_market_twice_is_refused() {
    let mut w = world();
    assert_eq!(w.book.create_market(s("M")), Err(OrderError::MarketAlreadyExists));
    assert_eq!(w.book.create_market(s("N")), Ok(()));
}

#[test]
fn best_price_then_earliest_fills_first() {
    let mut w = world();
    give_shares(&mut w, "A", StockType::Yes, 10);
    give_shares(&mut w, "B", StockType::Yes, 10);
    give_shares(&mut w, "C", StockType::Yes, 10);
    w.book.order_sell_yes(&mut w.cash, &mut w.stocks, s("A"), s("M"), 62, 3).unwrap();
    w.book.order_sell_yes(&mut w.cash, &mut w.stocks, s("B"), s("M"), 61, 2).unwrap();
    w.book.order_sell_yes(&mut w.cash, &mut w.stocks, s("C"), s("M"), 61, 2).unwrap();
    fund(&mut w, "T", 1000);
    let r = w.book.order_buy_yes(&mut w.cash, &mut w.stocks, s("T"), s("M"), 62, 5).unwrap();
    assert_eq!(
        r.fills,
        vec![
            Fill { maker_order_id: 2, taker_order_id: 4, price: 61, quantity: 2 },
            Fill { maker_order_id: 3, taker_order_id: 4, price: 61, quantity: 2 },
            Fill { maker_order_id: 1, taker_order_id: 4, price: 62, quantity: 1 },
        ]
    );
    assert_eq!(r.resting_qty, 0);
    // 2*61 + 2*61 + 62 = 306 paid, nothing left locked
    assert_eq!(cash_of(&w, "T"), UserBalance { balance: 694, locked: 0 });
    assert_eq!(yes_of(&w, "A"), StockQuantity { quantity: 7, locked: 2 });
}

#[test]
fn prices_beyond_the_limit_do_not_trade() {
    let mut w = world();
    give_shares(&mut w, "A", StockType::No, 4);
    w.book.order_sell_no(&mut w.cash, &mut w.stocks, s("A"), s("M"), 40, 4).unwrap();
    fund(&mut w, "T", 1000);
    let r = w.book.order_buy_no(&mut w.cash, &mut w.stocks, s("T"), s("M"), 39, 3).unwrap();
    assert!(r.fills.is_empty());
    assert_eq!(r.resting_qty, 3);
    // a Yes buy never crosses No liquidity
    let r = w.book.order_buy_yes(&mut w.cash, &mut w.stocks, s("T"), s("M"), 99, 1).unwrap();
    assert!(r.fills.is_empty());
}

#[test]
fn partial_fill_rests_the_remainder() {
    let mut w = world();
    fund(&mut w, "B", 1000);
    w.book.order_buy_yes(&mut w.cash, &mut w.stocks, s("B"), s("M"), 55, 3).unwrap();
    give_shares(&mut w, "S", StockType::Yes, 8);
    let r = w.book.order_sell_yes(&mut w.cash, &mut w.stocks, s("S"), s("M"), 50, 8).unwrap();
    assert_eq!(r.fills, vec![Fill { maker_order_id: 1, taker_order_id: 2, price: 55, quantity: 3 }]);
    assert_eq!(r.resting_qty, 5);
    assert_eq!(yes_of(&w, "S"), StockQuantity { quantity: 0, locked: 5 });
    assert_eq!(cash_of(&w, "S"), UserBalance { balance: 165, locked: 0 });
    // cancelling the rest gives the shares back
    assert_eq!(w.book.cancel_order(&mut w.cash, &mut w.stocks, s("B"), 2), Err(OrderError::NotOwner));
    assert_eq!(w.book.cancel_order(&mut w.cash, &mut w.stocks, s("S"), 2), Ok(()));
    assert_eq!(yes_of(&w, "S"), StockQuantity { quantity: 5, locked: 0 });
    assert_eq!(w.book.cancel_order(&mut w.cash, &mut w.stocks, s("S"), 2), Err(OrderError::OrderNotFound));
}

#[test]
fn cancel_buy_releases_cash() {
    let mut w = world();
    fund(&mut w, "U", 500);
    let r = w.book.order_buy_yes(&mut w.cash, &mut w.stocks, s("U"), s("M"), 20, 10).unwrap();
    assert_eq!(cash_of(&w, "U"), UserBalance { balance: 300, locked: 200 });
    assert_eq!(w.book.cancel_order(&mut w.cash, &mut w.stocks, s("U"), r.order_id), Ok(()));
    assert_eq!(cash_of(&w, "U"), UserBalance { balance: 500, locked: 0 });
    assert_eq!(w.book.cancel_order(&mut w.cash, &mut w.stocks, s("U"), r.order_id), Err(OrderError::OrderNotFound));
}

#[test]
fn trading_conserves_cash_and_shares() {
    let mut w = world();
    fund(&mut w, "B", 1000);
    give_shares(&mut w, "S", StockType::Yes, 10);
    w.book.order_buy_yes(&mut w.cash, &mut w.stocks, s("B"), s("M"), 70, 6).unwrap();
    w.book.order_sell_yes(&mut w.cash, &mut w.stocks, s("S"), s("M"), 65, 10).unwrap();
    let b = cash_of(&w, "B");
    let sc = cash_of(&w, "S");
    assert_eq!(b.balance + b.locked + sc.balance + sc.locked, 1000);
    let by = yes_of(&w, "B");
    let sy = yes_of(&w, "S");
    assert_eq!(by.quantity + by.locked + sy.quantity + sy.locked, 10);
    assert_eq!(sc, UserBalance { balance: 420, locked: 0 });
}

#[test]
fn reserve_then_release_restores_the_account() {
    let mut cash = InrBalance::new();
    cash.add_user(s("U"));
    cash.increase_bal(s("U"), 90).unwrap();
    cash.lock_balance(s("U"), 35).unwrap();
    assert_eq!(cash.get_balance(s("U")), Some(UserBalance { balance: 55, locked: 35 }));
    cash.unlock_balance(s("U"), 35).unwrap();
    assert_eq!(cash.get_balance(s("U")), Some(UserBalance { balance: 90, locked: 0 }));
}

#[test]
fn cash_ledger_refusals() {
    let mut cash = InrBalance::new();
    assert_eq!(cash.get_balance(s("U")), None);
    // accounts open on first use
    assert_eq!(cash.lock_balance(s("U"), 0), Ok(()));
    assert_eq!(cash.get_balance(s("U")), Some(UserBalance { balance: 0, locked: 0 }));
    assert_eq!(cash.lock_balance(s("V"), 1), Err(LedgerError::InsufficientFunds));
    assert_eq!(cash.get_balance(s("V")), None);
    cash.increase_bal(s("W"), 7).unwrap();
    assert_eq!(cash.get_balance(s("W")), Some(UserBalance { balance: 7, locked: 0 }));
    cash.increase_bal(s("U"), 10).unwrap();
    cash.add_user(s("U"));
    assert_eq!(cash.get_balance(s("U")), Some(UserBalance { balance: 10, locked: 0 }));
    assert_eq!(cash.lock_balance(s("U"), 11), Err(LedgerError::InsufficientFunds));
    assert_eq!(cash.deduct_balance(s("U"), 11), Err(LedgerError::InsufficientFunds));
    assert_eq!(cash.unlock_balance(s("U"), 1), Err(LedgerError::InsufficientLocked));
    assert_eq!(cash.deduct_locked(s("U"), 1), Err(LedgerError::InsufficientLocked));
    assert_eq!(cash.increase_bal(s("U"), u64::MAX), Err(LedgerError::Overflow));
    cash.lock_balance(s("U"), 4).unwrap();
    cash.deduct_locked(s("U"), 3).unwrap();
    cash.deduct_balance(s("U"), 6).unwrap();
    assert_eq!(cash.get_balance(s("U")), Some(UserBalance { balance: 0, locked: 1 }));
}

#[test]
fn credit_bound_is_per_field() {
    let mut cash = InrBalance::new();
    cash.increase_bal(s("U"), u64::MAX).unwrap();
    cash.lock_balance(s("U"), u64::MAX).unwrap();
    assert_eq!(cash.increase_bal(s("U"), 1), Ok(()));
    assert_eq!(cash.get_balance(s("U")), Some(UserBalance { balance: 1, locked: u64::MAX }));
    assert_eq!(cash.unlock_balance(s("U"), u64::MAX), Err(LedgerError::Overflow));
    let mut st = StockBalance::new();
    st.increase_stock_quantity(s("U"), s("M"), StockType::Yes, u64::MAX).unwrap();
    st.lock_stock(s("U"), s("M"), StockType::Yes, u64::MAX).unwrap();
    assert_eq!(st.increase_stock_quantity(s("U"), s("M"), StockType::Yes, 1), Ok(()));
    assert_eq!(
        st.get_stock_balance(&s("U"), &s("M")).yes,
        StockQuantity { quantity: 1, locked: u64::MAX }
    );
    st.increase_stock_quantity(s("U"), s("M"), StockType::Yes, u64::MAX - 1).unwrap();
    assert_eq!(st.unlock_stock(s("U"), s("M"), StockType::Yes, 1), Err(LedgerError::Overflow));
}

#[test]
fn share_ledger_operations() {
    let mut st = StockBalance::new();
    let (u, m) = (s("U"), s("M"));
    assert_eq!(st.lock_stock(s("U"), s("M"), StockType::No, 1), Err(LedgerError::InsufficientFunds));
    st.increase_stock_quantity(s("U"), s("M"), StockType::No, 9).unwrap();
    st.lock_stock(s("U"), s("M"), StockType::No, 4).unwrap();
    assert_eq!(st.get_stock_balance(&u, &m).no, StockQuantity { quantity: 5, locked: 4 });
    assert_eq!(st.unlock_stock(s("U"), s("M"), StockType::No, 5), Err(LedgerError::InsufficientLocked));
    st.unlock_stock(s("U"), s("M"), StockType::No, 1).unwrap();
    st.decrease_stock_quantity(s("U"), s("M"), StockType::No, 2).unwrap();
    st.deduct_locked_stock(s("U"), s("M"), StockType::No, 3).unwrap();
    assert_eq!(st.get_stock_balance(&u, &m).no, StockQuantity { quantity: 4, locked: 0 });
    assert_eq!(st.get_stock_balance(&u, &m).yes, StockQuantity { quantity: 0, locked: 0 });
    assert_eq!(st.decrease_stock_quantity(s("U"), s("M"), StockType::No, 5), Err(LedgerError::InsufficientFunds));
    assert_eq!(st.increase_stock_quantity(s("U"), s("M"), StockType::No, u64::MAX), Err(LedgerError::Overflow));
}

#[test]
fn price_level_lists_orders_oldest_first() {
    let mut w = world();
    fund(&mut w, "B", 1000);
    w.book.order_buy_yes(&mut w.cash, &mut w.stocks, s("B"), s("M"), 30, 2).unwrap();
    w.book.order_buy_yes(&mut w.cash, &mut w.stocks, s("B"), s("M"), 31, 1).unwrap();
    w.book.order_buy_yes(&mut w.cash, &mut w.stocks, s("B"), s("M"), 30, 5).unwrap();
    let e = w.book.get_price_entry(&s("M"), StockType::Yes, OrderType::Buy, 30);
    assert_eq!(e.price, 30);
    assert_eq!(e.orders, vec![1, 3]);
    assert_eq!(e.total, 7);
    let e = w.book.get_price_entry(&s("M"), StockType::Yes, OrderType::Sell, 30);
    assert!(e.orders.is_empty());
    assert_eq!(e.total, 0);
}

#[test]
fn positions_by_market() {
    let mut st = StockBalance::new();
    st.increase_stock_quantity(s("U"), s("M"), StockType::Yes, 3).unwrap();
    st.increase_stock_quantity(s("U"), s("N"), StockType::No, 2).unwrap();
    st.increase_stock_quantity(s("V"), s("M"), StockType::Yes, 1).unwrap();
    let mut v = st.get_stocks(&s("U"));
    v.sort_by(|a, b| a.0.cmp(&b.0));
    assert_eq!(v.len(), 2);
    assert_eq!(v[0].0, "M");
    assert_eq!(v[0].1.yes, StockQuantity { quantity: 3, locked: 0 });
    assert_eq!(v[1].0, "N");
    assert_eq!(v[1].1.no, StockQuantity { quantity: 2, locked: 0 });
    assert!(st.get_stocks(&s("W")).is_empty());
}

#[test]
fn market_snapshot_by_outcome() {
    let mut w = world();
    w.book.create_market(s("N")).unwrap();
    fund(&mut w, "B", 1000);
    give_shares(&mut w, "S", StockType::No, 5);
    w.book.order_buy_yes(&mut w.cash, &mut w.stocks, s("B"), s("M"), 10, 1).unwrap();
    w.book.order_sell_no(&mut w.cash, &mut w.stocks, s("S"), s("M"), 90, 2).unwrap();
    w.book.order_buy_yes(&mut w.cash, &mut w.stocks, s("B"), s("N"), 10, 1).unwrap();
    w.book.order_buy_yes(&mut w.cash, &mut w.stocks, s("B"), s("M"), 12, 1).unwrap();
    let m = w.book.get_stock_orders(&s("M"));
    assert_eq!(m.yes_buy, vec![1, 4]);
    assert!(m.yes_sell.is_empty());
    assert!(m.no_buy.is_empty());
    assert_eq!(m.no_sell, vec![2]);
    let n = w.book.get_stock_orders(&s("N"));
    assert_eq!(n.yes_buy, vec![3]);
    assert!(n.no_sell.is_empty());
}

#[test]
fn failed_settlement_leaves_no_effect() {
    let mut w = world();
    fund(&mut w, "B", 1000);
    let maker = w.book.order_buy_yes(&mut w.cash, &mut w.stocks, s("B"), s("M"), 60, 1).unwrap();
    fund(&mut w, "S", u64::MAX - 10);
    give_shares(&mut w, "S", StockType::Yes, 1);
    let r = w.book.order_sell_yes(&mut w.cash, &mut w.stocks, s("S"), s("M"), 60, 1);
    assert!(matches!(r, Err(OrderError::Internal)));
    assert_eq!(cash_of(&w, "S"), UserBalance { balance: u64::MAX - 10, locked: 0 });
    assert_eq!(yes_of(&w, "S"), StockQuantity { quantity: 1, locked: 0 });
    assert_eq!(cash_of(&w, "B"), UserBalance { balance: 940, locked: 60 });
    let e = w.book.get_price_entry(&s("M"), StockType::Yes, OrderType::Buy, 60);
    assert_eq!(e.orders, vec![maker.order_id]);
    // the id was not used up: the next order gets it
    fund(&mut w, "C", 10);
    let next = w.book.order_buy_yes(&mut w.cash, &mut w.stocks, s("C"), s("M"), 1, 1).unwrap();
    assert_eq!(next.order_id, 2);
}
