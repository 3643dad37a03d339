use vstd::prelude::*;
use crate::inr_balance::{InrBalance, UserBalance, released, reserved};
use crate::stock_balance::{StockBalance, StockQuantity, UserStocks, get_side, side_of, with_side};

verus! {

/// The side of an order.
#[derive(Clone, Copy, Debug, PartialEq, Eq, Structural)]
pub enum OrderType {
    Buy,
    Sell,
}

/// The outcome of a market that an order or a share position is about.
#[derive(Clone, Copy, Debug, PartialEq, Eq, Structural)]
pub enum StockType {
    Yes,
    No,
}

/// A limit order; `quantity` is what remains unfilled of `original_quantity`.
pub struct Order {
    pub id: u64,
    pub user_id: String,
    pub stock_symbol: String,
    pub stock_type: StockType,
    pub order_type: OrderType,
    pub price: u64,
    pub original_quantity: u64,
    pub quantity: u64,
}

/// One trade: always at the maker's limit price.
#[derive(Clone, Copy, Debug, PartialEq, Eq, Structural)]
pub struct Fill {
    pub maker_order_id: u64,
    pub taker_order_id: u64,
    pub price: u64,
    pub quantity: u64,
}

/// What a submitted order produced.
pub struct OrderResult {
    pub order_id: u64,
    pub fills: Vec<Fill>,
    pub resting_qty: u64,
}

#[derive(Clone, Copy, Debug, PartialEq, Eq, Structural)]
pub enum OrderError {
    InvalidMarket,
    InvalidPrice,
    InvalidQuantity,
    InsufficientFunds,
    InsufficientShares,
    OrderNotFound,
    NotOwner,
    MarketAlreadyExists,
    /// Ledger bookkeeping no longer backs the book; never caused by the caller's input.
    Internal,
}

pub open spec fn with_quantity(o: Order, q: u64) -> Order {
    Order { quantity: q, ..o }
}

/// `o` rests on the other side of `t`'s market and outcome, at a price `t` accepts.
pub open spec fn eligible(o: Order, t: Order) -> bool {
    &&& o.stock_symbol@ == t.stock_symbol@
    &&& o.stock_type == t.stock_type
    &&& o.order_type != t.order_type
    &&& match t.order_type {
        OrderType::Buy => o.price <= t.price,
        OrderType::Sell => o.price >= t.price,
    }
}

/// `a`'s price is strictly better than `b`'s for the taker `t`.
pub open spec fn better(a: Order, b: Order, t: Order) -> bool {
    match t.order_type {
        OrderType::Buy => a.price < b.price,
        OrderType::Sell => a.price > b.price,
    }
}

/// The first of the best-priced eligible orders among the first `n` of `book`.
pub open spec fn best_upto(book: Seq<Order>, t: Order, n: int) -> Option<int>
    decreases n,
{
    if n <= 0 {
        None
    } else {
        let b = best_upto(book, t, n - 1);
        if eligible(book[n - 1], t) && (b is None || better(book[n - 1], book[b->0], t)) {
            Some(n - 1)
        } else {
            b
        }
    }
}

pub open spec fn best(book: Seq<Order>, t: Order) -> Option<int> {
    best_upto(book, t, book.len() as int)
}

/// Crossing `t` with `rem` units left against `book`: the fills, the book after, and what is left.
pub open spec fn match_spec(book: Seq<Order>, t: Order, rem: nat) -> (Seq<Fill>, Seq<Order>, nat)
    decreases rem,
{
    if rem == 0 {
        (Seq::empty(), book, 0)
    } else {
        match best(book, t) {
            None => (Seq::empty(), book, rem),
            Some(j) => {
                let m = book[j];
                let x: nat = if rem < m.quantity {
                    rem
                } else {
                    m.quantity as nat
                };
                if x == 0 {
                    (Seq::empty(), book, rem)
                } else {
                    let book2 = if x == m.quantity {
                        book.remove(j)
                    } else {
                        book.update(j, with_quantity(m, (m.quantity - x) as u64))
                    };
                    let r = match_spec(book2, t, (rem - x) as nat);
                    (
                        seq![
                            Fill {
                                maker_order_id: m.id,
                                taker_order_id: t.id,
                                price: m.price,
                                quantity: x as u64,
                            },
                        ] + r.0,
                        r.1,
                        r.2,
                    )
                }
            },
        }
    }
}

/// Every id in `book` is below `bound`, ids increase along the book (arrival order), and
/// every resting order still offers something, never more than it was submitted with.
pub open spec fn ids_ok(book: Seq<Order>, bound: u64) -> bool {
    &&& forall|i: int| 0 <= i < book.len() ==> #[trigger] book[i].id < bound
    &&& forall|i: int| 0 <= i < book.len() ==> #[trigger] book[i].quantity > 0
    &&& forall|i: int| 0 <= i < book.len() ==> #[trigger] book[i].quantity <= book[i].original_quantity
    &&& forall|i: int, j: int| 0 <= i < j < book.len() ==> book[i].id < book[j].id
}

pub open spec fn has_order(book: Seq<Order>, id: u64) -> bool {
    exists|i: int| 0 <= i < book.len() && book[i].id == id
}

/// Where `id` is in `book`.
pub open spec fn order_index(book: Seq<Order>, id: u64) -> int {
    choose|i: int| 0 <= i < book.len() && book[i].id == id
}

proof fn lemma_order_index(book: Seq<Order>, i: int, bound: u64)
    requires
        ids_ok(book, bound),
        0 <= i < book.len(),
    ensures
        has_order(book, book[i].id),
        order_index(book, book[i].id) == i,
{
    assert(has_order(book, book[i].id));
    let k = order_index(book, book[i].id);
    if k < i {
        assert(book[k].id < book[i].id);
    } else if k > i {
        assert(book[i].id < book[k].id);
    }
}

proof fn lemma_ids_remove(book: Seq<Order>, j: int, bound: u64)
    requires
        ids_ok(book, bound),
        0 <= j < book.len(),
    ensures
        ids_ok(book.remove(j), bound),
        !has_order(book.remove(j), book[j].id),
{
    let r = book.remove(j);
    assert forall|i: int| 0 <= i < r.len() implies #[trigger] r[i].id < bound && r[i].quantity > 0
        && r[i].quantity <= r[i].original_quantity by {
        if i < j {
            assert(r[i] == book[i]);
        } else {
            assert(r[i] == book[i + 1]);
        }
    }
    assert forall|a: int, b: int| 0 <= a < b < r.len() implies r[a].id < r[b].id by {
        let a2 = if a < j { a } else { a + 1 };
        let b2 = if b < j { b } else { b + 1 };
        assert(r[a] == book[a2]);
        assert(r[b] == book[b2]);
    }
    if has_order(r, book[j].id) {
        let i = choose|i: int| 0 <= i < r.len() && r[i].id == book[j].id;
        if i < j {
            assert(r[i] == book[i]);
        } else {
            assert(r[i] == book[i + 1]);
        }
    }
}

proof fn lemma_ids_update(book: Seq<Order>, j: int, q: u64, bound: u64)
    requires
        ids_ok(book, bound),
        0 <= j < book.len(),
        q > 0,
        q <= book[j].quantity,
    ensures
        ids_ok(book.update(j, with_quantity(book[j], q)), bound),
{
    let r = book.update(j, with_quantity(book[j], q));
    assert forall|i: int| 0 <= i < r.len() implies #[trigger] r[i].id == book[i].id by {}
    assert forall|i: int| 0 <= i < r.len() implies #[trigger] r[i].id < bound && r[i].quantity > 0
        && r[i].quantity <= r[i].original_quantity by {
        assert(r[i].id == book[i].id);
        if i != j {
            assert(r[i] == book[i]);
        }
    }
    assert forall|a: int, b: int| 0 <= a < b < r.len() implies r[a].id < r[b].id by {
        assert(r[a].id == book[a].id);
        assert(r[b].id == book[b].id);
    }
}

proof fn lemma_match_ids(book: Seq<Order>, t: Order, rem: nat, bound: u64)
    requires
        ids_ok(book, bound),
    ensures
        ids_ok(match_spec(book, t, rem).1, bound),
    decreases rem,
{
    if rem > 0 {
        if let Some(j) = best(book, t) {
            lemma_best_in_range(book, t, book.len() as int);
            let m = book[j];
            let x: nat = if rem < m.quantity { rem } else { m.quantity as nat };
            if x > 0 {
                if x == m.quantity {
                    lemma_ids_remove(book, j, bound);
                    lemma_match_ids(book.remove(j), t, (rem - x) as nat, bound);
                } else {
                    lemma_ids_update(book, j, (m.quantity - x) as u64, bound);
                    lemma_match_ids(
                        book.update(j, with_quantity(m, (m.quantity - x) as u64)),
                        t,
                        (rem - x) as nat,
                        bound,
                    );
                }
            }
        }
    }
}

proof fn lemma_best_in_range(book: Seq<Order>, t: Order, n: int)
    requires
        n <= book.len(),
    ensures
        best_upto(book, t, n) matches Some(j) ==> 0 <= j < n,
    decreases n,
{
    if n > 0 {
        lemma_best_in_range(book, t, n - 1);
    }
}

proof fn lemma_best_upto(book: Seq<Order>, t: Order, n: int, k: int)
    requires
        ids_ok(book, t.id),
        0 <= k < n <= book.len(),
        eligible(book[k], t),
    ensures
        best_upto(book, t, n) matches Some(j) && 0 <= j < n && eligible(book[j], t) && !better(
            book[k],
            book[j],
            t,
        ) && (j != k && book[j].price == book[k].price ==> book[j].id < book[k].id),
    decreases n,
{
    lemma_best_in_range(book, t, n - 1);
    lemma_best_eligible(book, t, n - 1);
    if k < n - 1 {
        lemma_best_upto(book, t, n - 1, k);
    }
}

proof fn lemma_best_eligible(book: Seq<Order>, t: Order, n: int)
    requires
        n <= book.len(),
    ensures
        best_upto(book, t, n) matches Some(j) ==> eligible(book[j], t),
    decreases n,
{
    if n > 0 {
        lemma_best_eligible(book, t, n - 1);
    }
}

/// Price-time priority: whenever some resting order is eligible to trade with `t`, the order
/// that trades next is eligible too, no eligible order has a better price, and any eligible
/// order at the same price arrived later (has a higher sequence id).
pub proof fn lemma_price_time_priority(book: Seq<Order>, t: Order, k: int)
    requires
        ids_ok(book, t.id),
        0 <= k < book.len(),
        eligible(book[k], t),
    ensures
        best(book, t) matches Some(j) && eligible(book[j], t) && !better(book[k], book[j], t) && (
        j != k && book[j].price == book[k].price ==> book[j].id < book[k].id),
{
    lemma_best_upto(book, t, book.len() as int, k);
}

/// Price improvement: every fill of `t` is at the price of a resting order that `t` could
/// trade with, so a buyer never pays above its limit and a seller never gets below it.
pub proof fn lemma_fills_at_maker_price(book: Seq<Order>, t: Order, rem: nat)
    ensures
        forall|i: int| 0 <= i < match_spec(book, t, rem).0.len() ==> {
            let f = #[trigger] match_spec(book, t, rem).0[i];
            &&& f.taker_order_id == t.id
            &&& f.quantity > 0
            &&& exists|k: int|
                0 <= k < book.len() && book[k].id == f.maker_order_id && book[k].price == f.price
                    && eligible(book[k], t)
            &&& t.order_type == OrderType::Buy ==> f.price <= t.price
            &&& t.order_type == OrderType::Sell ==> f.price >= t.price
        },
    decreases rem,
{
    if rem > 0 {
        if let Some(j) = best(book, t) {
            lemma_best_in_range(book, t, book.len() as int);
            lemma_best_eligible(book, t, book.len() as int);
            let m = book[j];
            let x: nat = if rem < m.quantity { rem } else { m.quantity as nat };
            if x > 0 {
                let book2 = if x == m.quantity {
                    book.remove(j)
                } else {
                    book.update(j, with_quantity(m, (m.quantity - x) as u64))
                };
                lemma_fills_at_maker_price(book2, t, (rem - x) as nat);
                let fs = match_spec(book, t, rem).0;
                let rest = match_spec(book2, t, (rem - x) as nat).0;
                assert forall|i: int| 0 <= i < fs.len() implies {
                    let f = #[trigger] fs[i];
                    &&& f.taker_order_id == t.id
                    &&& f.quantity > 0
                    &&& exists|k: int|
                        0 <= k < book.len() && book[k].id == f.maker_order_id && book[k].price
                            == f.price && eligible(book[k], t)
                    &&& t.order_type == OrderType::Buy ==> f.price <= t.price
                    &&& t.order_type == OrderType::Sell ==> f.price >= t.price
                } by {
                    if i == 0 {
                        assert(book[j].id == fs[0].maker_order_id);
                    } else {
                        let f = rest[i - 1];
                        assert(fs[i] == f);
                        let k2 = choose|k2: int|
                            0 <= k2 < book2.len() && book2[k2].id == f.maker_order_id
                                && book2[k2].price == f.price && eligible(book2[k2], t);
                        if x == m.quantity {
                            let k = if k2 < j { k2 } else { k2 + 1 };
                            assert(book2[k2] == book[k]);
                        } else {
                            if k2 == j {
                                assert(book2[k2].id == book[j].id);
                            } else {
                                assert(book2[k2] == book[k2]);
                            }
                        }
                    }
                }
            }
        }
    }
}

/// A cancelled order is gone: cancelling it again finds nothing.
pub proof fn lemma_cancel_is_terminal(book: Seq<Order>, id: u64, bound: u64)
    requires
        ids_ok(book, bound),
        has_order(book, id),
    ensures
        !has_order(book.remove(order_index(book, id)), id),
{
    let k = order_index(book, id);
    lemma_ids_remove(book, k, bound);
}

/// A taker that is filled in full never rests: its id is not in the book afterwards.
pub proof fn lemma_filled_taker_not_resting(book: Seq<Order>, t: Order, rem: nat)
    requires
        ids_ok(book, t.id),
        match_spec(book, t, rem).2 == 0,
    ensures
        !has_order(match_spec(book, t, rem).1, t.id),
{
    lemma_match_ids(book, t, rem, t.id);
    let b = match_spec(book, t, rem).1;
    if has_order(b, t.id) {
        let i = choose|i: int| 0 <= i < b.len() && b[i].id == t.id;
        assert(b[i].id < t.id);
    }
}

/// Matching never brings an order back: an id absent from the book before crossing is absent
/// after it. A maker filled in full is removed at its fill (see `match_spec`), so cancelling
/// it afterwards finds nothing.
pub proof fn lemma_removed_stays_removed(book: Seq<Order>, t: Order, rem: nat, id: u64)
    requires
        !has_order(book, id),
    ensures
        !has_order(match_spec(book, t, rem).1, id),
    decreases rem,
{
    if rem > 0 {
        if let Some(j) = best(book, t) {
            lemma_best_in_range(book, t, book.len() as int);
            let m = book[j];
            let x: nat = if rem < m.quantity { rem } else { m.quantity as nat };
            if x > 0 {
                let book2 = if x == m.quantity {
                    book.remove(j)
                } else {
                    book.update(j, with_quantity(m, (m.quantity - x) as u64))
                };
                if has_order(book2, id) {
                    let i = choose|i: int| 0 <= i < book2.len() && book2[i].id == id;
                    if x == m.quantity {
                        let k = if i < j { i } else { i + 1 };
                        assert(book2[i] == book[k]);
                    } else {
                        assert(book2[i].id == book[i].id);
                    }
                }
                lemma_removed_stays_removed(book2, t, (rem - x) as nat, id);
            }
        }
    }
}

/// Every maker that a fill consumes in full is gone from the book after crossing, so
/// cancelling it afterwards finds nothing.
pub proof fn lemma_filled_makers_not_resting(book: Seq<Order>, t: Order, rem: nat)
    requires
        ids_ok(book, t.id),
    ensures
        match_makers(book, t, rem).len() == match_spec(book, t, rem).0.len(),
        forall|k: int|
            0 <= k < match_spec(book, t, rem).0.len() && (#[trigger] match_spec(book, t, rem).0[k]).quantity
                == match_makers(book, t, rem)[k].quantity ==> !has_order(
                match_spec(book, t, rem).1,
                match_makers(book, t, rem)[k].id,
            ),
    decreases rem,
{
    if rem > 0 {
        if let Some(j) = best(book, t) {
            lemma_best_in_range(book, t, book.len() as int);
            let m = book[j];
            let x: nat = if rem < m.quantity { rem } else { m.quantity as nat };
            if x > 0 {
                let book2 = if x == m.quantity {
                    book.remove(j)
                } else {
                    book.update(j, with_quantity(m, (m.quantity - x) as u64))
                };
                if x == m.quantity {
                    lemma_ids_remove(book, j, t.id);
                } else {
                    lemma_ids_update(book, j, (m.quantity - x) as u64, t.id);
                }
                lemma_filled_makers_not_resting(book2, t, (rem - x) as nat);
                let fs = match_spec(book, t, rem).0;
                let ms = match_makers(book, t, rem);
                let rest = match_spec(book2, t, (rem - x) as nat);
                let mrest = match_makers(book2, t, (rem - x) as nat);
                assert(fs == seq![fs[0]] + rest.0);
                assert(ms == seq![m] + mrest);
                assert forall|k: int|
                    0 <= k < fs.len() && (#[trigger] fs[k]).quantity == ms[k].quantity implies !has_order(
                    match_spec(book, t, rem).1,
                    ms[k].id,
                ) by {
                    if k == 0 {
                        lemma_removed_stays_removed(book2, t, (rem - x) as nat, m.id);
                    } else {
                        assert(fs[k] == rest.0[k - 1]);
                        assert(ms[k] == mrest[k - 1]);
                    }
                }
            }
        }
    }
}

fn is_eligible(o: &Order, t: &Order) -> (r: bool)
    ensures
        r == eligible(*o, *t),
{
    o.stock_symbol == t.stock_symbol && o.stock_type == t.stock_type && o.order_type
        != t.order_type && match t.order_type {
        OrderType::Buy => o.price <= t.price,
        OrderType::Sell => o.price >= t.price,
    }
}

/// Index of the resting order that `t` must trade with next.
fn find_best(book: &Vec<Order>, t: &Order) -> (r: Option<usize>)
    ensures
        match r {
            Some(i) => best(book@, *t) == Some(i as int) && i < book@.len(),
            None => best(book@, *t) is None,
        },
{
    let mut b: Option<usize> = None;
    let mut i: usize = 0;
    while i < book.len()
        invariant
            i <= book@.len(),
            match b {
                Some(k) => best_upto(book@, *t, i as int) == Some(k as int) && k < i,
                None => best_upto(book@, *t, i as int) is None,
            },
        decreases book@.len() - i,
    {
        if is_eligible(&book[i], t) {
            let improves = match b {
                None => true,
                Some(k) => match t.order_type {
                    OrderType::Buy => book[i].price < book[k].price,
                    OrderType::Sell => book[i].price > book[k].price,
                },
            };
            if improves {
                b = Some(i);
            }
        }
        i = i + 1;
    }
    b
}

fn copy_order(o: &Order, quantity: u64) -> (r: Order)
    ensures
        r == with_quantity(*o, quantity),
{
    Order {
        id: o.id,
        user_id: o.user_id.clone(),
        stock_symbol: o.stock_symbol.clone(),
        stock_type: o.stock_type,
        order_type: o.order_type,
        price: o.price,
        original_quantity: o.original_quantity,
        quantity,
    }
}

/// The cash account `a` of user `u` after a trade of `quantity` at `trade_price` in which the
/// buyer had locked `lock_price` per share: the seller is paid, and the buyer spends the
/// locked amount and gets back the part above the trade price.
pub open spec fn fill_cash(
    a: UserBalance,
    u: Seq<char>,
    buyer: Seq<char>,
    seller: Seq<char>,
    lock_price: u64,
    trade_price: u64,
    quantity: u64,
) -> UserBalance {
    let paid: int = if u == seller { trade_price * quantity } else { 0 };
    let refund: int = if u == buyer { (lock_price - trade_price) * quantity } else { 0 };
    let spent: int = if u == buyer { lock_price * quantity } else { 0 };
    UserBalance { balance: (a.balance + paid + refund) as u64, locked: (a.locked - spent) as u64 }
}

/// The traded outcome's shares `q` of user `u` after a trade of `quantity`: they leave the
/// seller's locked shares and join the buyer's available ones.
pub open spec fn fill_shares(q: StockQuantity, u: Seq<char>, buyer: Seq<char>, seller: Seq<char>, quantity: u64) -> StockQuantity {
    let got: int = if u == buyer { quantity as int } else { 0 };
    let gave: int = if u == seller { quantity as int } else { 0 };
    StockQuantity { quantity: (q.quantity + got) as u64, locked: (q.locked - gave) as u64 }
}

fn copy_orders(v: &Vec<Order>) -> (r: Vec<Order>)
    ensures
        r@ == v@,
{
    let mut r: Vec<Order> = Vec::new();
    let mut i: usize = 0;
    while i < v.len()
        invariant
            i <= v@.len(),
            r@ == v@.take(i as int),
        decreases v@.len() - i,
    {
        let o = copy_order(&v[i], v[i].quantity);
        r.push(o);
        proof {
            assert(r@ =~= v@.take(i + 1));
        }
        i = i + 1;
    }
    proof {
        assert(r@ =~= v@);
    }
    r
}

/// Whether a trade settles: `b` and `s` are the buyer's and seller's cash accounts, `qs`
/// and `qb` the seller's and buyer's shares of the traded outcome. The buyer's locked cash
/// and the seller's locked shares must cover the trade, and no credited field may overflow.
pub open spec fn settle_ok(
    b: UserBalance,
    s: UserBalance,
    qs: StockQuantity,
    qb: StockQuantity,
    same: bool,
    lock_price: u64,
    trade_price: u64,
    quantity: u64,
) -> bool {
    &&& trade_price <= lock_price
    &&& lock_price * quantity <= b.locked
    &&& s.balance + trade_price * quantity <= u64::MAX
    &&& b.balance + (if same {
        lock_price * quantity
    } else {
        lock_price * quantity - trade_price * quantity
    }) <= u64::MAX
    &&& qs.locked >= quantity
    &&& qb.quantity + quantity <= u64::MAX
}

/// Settles one trade of `quantity` shares at `trade_price`: the buyer, who locked `lock_price`
/// per share, pays the seller from locked cash and gets the difference back; the seller's
/// locked shares go to the buyer. Either all of it happens, or nothing but opening the
/// seller's cash account (`false`).
fn settle(
    cash: &mut InrBalance,
    stocks: &mut StockBalance,
    symbol: &String,
    outcome: StockType,
    buyer: &String,
    seller: &String,
    lock_price: u64,
    trade_price: u64,
    quantity: u64,
) -> (ok: bool)
    requires
        old(cash).wf(),
        old(stocks).wf(),
    ensures
        final(cash).wf(),
        final(stocks).wf(),
        final(cash).total() == old(cash).total(),
        forall|s: Seq<char>, o: StockType| #[trigger] final(stocks).share_total(s, o) == old(
            stocks,
        ).share_total(s, o),
        ok == settle_ok(
            old(cash).account(buyer@),
            old(cash).account(seller@),
            side_of(old(stocks).holding(seller@, symbol@), outcome),
            side_of(old(stocks).holding(buyer@, symbol@), outcome),
            buyer@ == seller@,
            lock_price,
            trade_price,
            quantity,
        ),
        !ok ==> final(cash).accounts() == old(cash).accounts() && forall|u: Seq<char>, s: Seq<char>|
            #[trigger] final(stocks).holding(u, s) == old(stocks).holding(u, s),
        forall|u: Seq<char>, s: Seq<char>, o: StockType|
            s != symbol@ || o != outcome ==> #[trigger] side_of(final(stocks).holding(u, s), o)
                == side_of(old(stocks).holding(u, s), o),
        ok ==> forall|u: Seq<char>| #[trigger] final(cash).account(u) == fill_cash(
            old(cash).account(u),
            u,
            buyer@,
            seller@,
            lock_price,
            trade_price,
            quantity,
        ),
        ok ==> forall|u: Seq<char>| #[trigger] side_of(final(stocks).holding(u, symbol@), outcome)
            == fill_shares(
            side_of(old(stocks).holding(u, symbol@), outcome),
            u,
            buyer@,
            seller@,
            quantity,
        ),
{
    if trade_price > lock_price {
        return false;
    }
    let b = cash.read(buyer);
    let s = cash.read(seller);
    let same = *buyer == *seller;
    proof {
        lemma_u64_product_fits(lock_price, quantity);
        lemma_u64_product_fits(trade_price, quantity);
    }
    let locked_amount: u128 = lock_price as u128 * quantity as u128;
    let cost: u128 = trade_price as u128 * quantity as u128;
    if locked_amount > b.locked as u128 {
        return false;
    }
    if cost > u64::MAX as u128 || s.balance as u128 + cost > u64::MAX as u128 {
        return false;
    }
    let sh_seller = get_side(&stocks.get_stock_balance(seller, symbol), outcome);
    let sh_buyer = get_side(&stocks.get_stock_balance(buyer, symbol), outcome);
    if sh_seller.locked < quantity {
        return false;
    }
    if sh_buyer.quantity as u128 + quantity as u128 > u64::MAX as u128 {
        return false;
    }
    proof {
        assert(cost <= locked_amount) by (nonlinear_arith)
            requires
                trade_price <= lock_price,
                cost == trade_price as u128 * quantity as u128,
                locked_amount == lock_price as u128 * quantity as u128,
        ;
    }
    let buyer_gain: u128 = if same {
        locked_amount
    } else {
        locked_amount - cost
    };
    if b.balance as u128 + buyer_gain > u64::MAX as u128 {
        return false;
    }
    let locked_amount = locked_amount as u64;
    let cost = cost as u64;
    let surplus = locked_amount - cost;
    let r1 = cash.deduct_locked(buyer.clone(), locked_amount);
    let r2 = cash.increase_bal(seller.clone(), cost);
    let r3 = cash.increase_bal(buyer.clone(), surplus);
    let r4 = stocks.deduct_locked_stock(seller.clone(), symbol.clone(), outcome, quantity);
    let r5 = stocks.increase_stock_quantity(buyer.clone(), symbol.clone(), outcome, quantity);
    proof {
        assert((lock_price - trade_price) * quantity == locked_amount - cost) by (nonlinear_arith)
            requires
                trade_price <= lock_price,
                cost == trade_price * quantity,
                locked_amount == lock_price * quantity,
        ;
        assert(r1.is_ok());
        assert(r2.is_ok());
        assert(r3.is_ok());
        assert(r4.is_ok());
        assert(r5.is_ok());
    }
    true
}

proof fn lemma_u64_product_fits(a: u64, b: u64)
    ensures
        a as int * b as int <= u128::MAX,
{
    assert(a as int * b as int <= u64::MAX as int * u64::MAX as int) by (nonlinear_arith)
        requires
            a <= u64::MAX,
            b <= u64::MAX,
    ;
}

/// One price level: the ids of the orders resting on one side of one outcome at one price,
/// oldest first, and the quantity they still offer in all.
pub struct PriceEntry {
    pub price: u64,
    pub total: u128,
    pub orders: Vec<u64>,
}

pub open spec fn at_level(o: Order, symbol: Seq<char>, outcome: StockType, side: OrderType, price: u64) -> bool {
    o.stock_symbol@ == symbol && o.stock_type == outcome && o.order_type == side && o.price == price
}

/// The orders of `book` at one price level, in book order.
pub open spec fn level_of(
    book: Seq<Order>,
    symbol: Seq<char>,
    outcome: StockType,
    side: OrderType,
    price: u64,
) -> Seq<Order>
    decreases book.len(),
{
    if book.len() == 0 {
        Seq::empty()
    } else {
        let r = level_of(book.drop_last(), symbol, outcome, side, price);
        if at_level(book.last(), symbol, outcome, side, price) {
            r.push(book.last())
        } else {
            r
        }
    }
}

pub open spec fn quantity_sum(orders: Seq<Order>) -> int
    decreases orders.len(),
{
    if orders.len() == 0 {
        0
    } else {
        quantity_sum(orders.drop_last()) + orders.last().quantity
    }
}

pub open spec fn ids_of(orders: Seq<Order>) -> Seq<u64> {
    orders.map_values(|o: Order| o.id)
}

/// The resting orders of one market, by outcome and side: their ids, oldest first.
pub struct StockOrders {
    pub yes_buy: Vec<u64>,
    pub yes_sell: Vec<u64>,
    pub no_buy: Vec<u64>,
    pub no_sell: Vec<u64>,
}

/// The orders of `book` in market `symbol` on outcome `outcome` and side `side`, in book order.
pub open spec fn market_orders(book: Seq<Order>, symbol: Seq<char>, outcome: StockType, side: OrderType) -> Seq<Order>
    decreases book.len(),
{
    if book.len() == 0 {
        Seq::empty()
    } else {
        let r = market_orders(book.drop_last(), symbol, outcome, side);
        if book.last().stock_symbol@ == symbol && book.last().stock_type == outcome
            && book.last().order_type == side {
            r.push(book.last())
        } else {
            r
        }
    }
}

/// The maker of each fill of `match_spec(book, t, rem)`, as it rested just before that fill.
pub open spec fn match_makers(book: Seq<Order>, t: Order, rem: nat) -> Seq<Order>
    decreases rem,
{
    if rem == 0 {
        Seq::empty()
    } else {
        match best(book, t) {
            None => Seq::empty(),
            Some(j) => {
                let m = book[j];
                let x: nat = if rem < m.quantity {
                    rem
                } else {
                    m.quantity as nat
                };
                if x == 0 {
                    Seq::empty()
                } else {
                    let book2 = if x == m.quantity {
                        book.remove(j)
                    } else {
                        book.update(j, with_quantity(m, (m.quantity - x) as u64))
                    };
                    seq![m] + match_makers(book2, t, (rem - x) as nat)
                }
            },
        }
    }
}

/// Buyer, seller, and the price per share the buyer had locked, in a trade of taker `t`
/// against maker `m`.
pub open spec fn roles(t: Order, m: Order) -> (Seq<char>, Seq<char>, u64) {
    match t.order_type {
        OrderType::Buy => (t.user_id@, m.user_id@, t.price),
        OrderType::Sell => (m.user_id@, t.user_id@, m.price),
    }
}

/// User `u`'s cash account `a` after the fills `fills` of taker `t` against `makers`, in order.
pub open spec fn cash_after_fills(a: UserBalance, u: Seq<char>, t: Order, makers: Seq<Order>, fills: Seq<Fill>) -> UserBalance
    decreases fills.len(),
{
    if fills.len() == 0 {
        a
    } else {
        let n = fills.len() - 1;
        let prev = cash_after_fills(a, u, t, makers.take(n), fills.drop_last());
        let r = roles(t, makers[n]);
        fill_cash(prev, u, r.0, r.1, r.2, fills[n].price, fills[n].quantity)
    }
}

/// User `u`'s shares `q` of the traded outcome after the fills `fills` of taker `t`.
pub open spec fn shares_after_fills(q: StockQuantity, u: Seq<char>, t: Order, makers: Seq<Order>, fills: Seq<Fill>) -> StockQuantity
    decreases fills.len(),
{
    if fills.len() == 0 {
        q
    } else {
        let n = fills.len() - 1;
        let prev = shares_after_fills(q, u, t, makers.take(n), fills.drop_last());
        let r = roles(t, makers[n]);
        fill_shares(prev, u, r.0, r.1, fills[n].quantity)
    }
}

/// User `u`'s cash account once the order's reservation is taken.
pub open spec fn cash_reserved(cash: InrBalance, user_id: Seq<char>, side: OrderType, price: u64, quantity: u64, u: Seq<char>) -> UserBalance {
    if side == OrderType::Buy && u == user_id {
        reserved(cash.account(u), (price * quantity) as u64)
    } else {
        cash.account(u)
    }
}

/// The position of `(u, s)` after `user_id` reserves `quantity` shares of `outcome` in `symbol`.
pub open spec fn reserved_shares(
    stocks: StockBalance,
    user_id: Seq<char>,
    symbol: Seq<char>,
    outcome: StockType,
    quantity: u64,
    u: Seq<char>,
    s: Seq<char>,
) -> UserStocks {
    if u == user_id && s == symbol {
        let q = side_of(stocks.holding(u, s), outcome);
        with_side(
            stocks.holding(u, s),
            outcome,
            StockQuantity { quantity: (q.quantity - quantity) as u64, locked: (q.locked + quantity) as u64 },
        )
    } else {
        stocks.holding(u, s)
    }
}

/// The buyer's and seller's accounts and shares, as the `k`th fill of `t` against `makers`
/// finds them, pass `settle_ok`. `cash_at` and `shares_at` give each user's cash account and
/// traded-outcome shares before the first fill.
pub open spec fn fill_settles(
    cash_at: spec_fn(Seq<char>) -> UserBalance,
    shares_at: spec_fn(Seq<char>) -> StockQuantity,
    t: Order,
    makers: Seq<Order>,
    fills: Seq<Fill>,
    k: int,
) -> bool {
    let r = roles(t, makers[k]);
    let mk = makers.take(k);
    let fk = fills.take(k);
    settle_ok(
        cash_after_fills(cash_at(r.0), r.0, t, mk, fk),
        cash_after_fills(cash_at(r.1), r.1, t, mk, fk),
        shares_after_fills(shares_at(r.1), r.1, t, mk, fk),
        shares_after_fills(shares_at(r.0), r.0, t, mk, fk),
        r.0 == r.1,
        r.2,
        fills[k].price,
        fills[k].quantity,
    )
}

/// Every one of `fills` settles, each in the state the earlier ones left.
pub open spec fn fills_settle(
    cash_at: spec_fn(Seq<char>) -> UserBalance,
    shares_at: spec_fn(Seq<char>) -> StockQuantity,
    t: Order,
    makers: Seq<Order>,
    fills: Seq<Fill>,
) -> bool {
    forall|k: int| 0 <= k < fills.len() ==> #[trigger] fill_settles(cash_at, shares_at, t, makers, fills, k)
}

/// Each user's cash account once the reservation of `t` is taken.
pub open spec fn reserved_cash_at(cash0: InrBalance, t: Order) -> spec_fn(Seq<char>) -> UserBalance {
    |v: Seq<char>| cash_reserved(cash0, t.user_id@, t.order_type, t.price, t.quantity, v)
}

/// Each user's shares of `t`'s market and outcome once the reservation of `t` is taken.
pub open spec fn reserved_shares_at(stocks0: StockBalance, t: Order) -> spec_fn(Seq<char>) -> StockQuantity {
    |v: Seq<char>| side_of(
        if t.order_type == OrderType::Sell {
            reserved_shares(stocks0, t.user_id@, t.stock_symbol@, t.stock_type, t.quantity, v, t.stock_symbol@)
        } else {
            stocks0.holding(v, t.stock_symbol@)
        },
        t.stock_type,
    )
}

/// Whether the reservation that resting order `o` still holds can go back to its owner:
/// the owner's locked cash or shares cover it, and the available field does not overflow.
pub open spec fn release_ok(cash: InrBalance, stocks: StockBalance, o: Order) -> bool {
    match o.order_type {
        OrderType::Buy => {
            let a = cash.account(o.user_id@);
            &&& o.price * o.quantity <= u64::MAX
            &&& a.locked >= o.price * o.quantity
            &&& a.balance + o.price * o.quantity <= u64::MAX
        },
        OrderType::Sell => {
            let q = side_of(stocks.holding(o.user_id@, o.stock_symbol@), o.stock_type);
            &&& q.locked >= o.quantity
            &&& q.quantity + o.quantity <= u64::MAX
        },
    }
}

/// Why a valid, covered order would still be refused as `Internal`: no order id is left, the
/// reservation would overflow the locked field, or some fill of the crossing cannot settle.
pub open spec fn internal_refusal(
    pre: OrderBook,
    cash0: InrBalance,
    stocks0: StockBalance,
    t: Order,
) -> bool {
    let u = t.user_id@;
    let sym = t.stock_symbol@;
    ||| pre.next_order_id() == u64::MAX
    ||| t.order_type == OrderType::Buy && cash0.account(u).locked + t.price * t.quantity > u64::MAX
    ||| t.order_type == OrderType::Sell && side_of(stocks0.holding(u, sym), t.stock_type).locked
        + t.quantity > u64::MAX
    ||| !fills_settle(
        reserved_cash_at(cash0, t),
        reserved_shares_at(stocks0, t),
        t,
        match_makers(pre.resting(), t, t.quantity as nat),
        match_spec(pre.resting(), t, t.quantity as nat).0,
    )
}

/// What `submit_order` guarantees: cash and shares are conserved, each refusal comes exactly
/// on its condition and changes nothing, and an accepted order's fills and the book after
/// are those of crossing it against the book in price-time priority.
pub open spec fn submit_outcome(
    pre: OrderBook,
    post: OrderBook,
    cash0: InrBalance,
    cash1: InrBalance,
    stocks0: StockBalance,
    stocks1: StockBalance,
    user_id: String,
    stock_symbol: String,
    stock_type: StockType,
    order_type: OrderType,
    price: u64,
    quantity: u64,
    r: Result<OrderResult, OrderError>,
) -> bool {
    &&& cash1.total() == cash0.total()
    &&& forall|s: Seq<char>, o: StockType| #[trigger] stocks1.share_total(s, o)
        == stocks0.share_total(s, o)
    &&& forall|s: Seq<char>| #[trigger] post.has_market(s) == pre.has_market(s)
    &&& !pre.has_market(stock_symbol@) ==> r == Err::<OrderResult, OrderError>(
        OrderError::InvalidMarket,
    )
    &&& pre.has_market(stock_symbol@) && !(1 <= price <= 99) ==> r == Err::<OrderResult, OrderError>(
        OrderError::InvalidPrice,
    )
    &&& pre.has_market(stock_symbol@) && 1 <= price <= 99 && quantity == 0 ==> r == Err::<
        OrderResult,
        OrderError,
    >(OrderError::InvalidQuantity)
    &&& pre.has_market(stock_symbol@) && 1 <= price <= 99 && quantity > 0 && order_type
        == OrderType::Buy ==> (r == Err::<OrderResult, OrderError>(OrderError::InsufficientFunds)
        <==> cash0.available(user_id@) < price * quantity)
    &&& pre.has_market(stock_symbol@) && 1 <= price <= 99 && quantity > 0 && order_type
        == OrderType::Sell ==> (r == Err::<OrderResult, OrderError>(OrderError::InsufficientShares)
        <==> side_of(stocks0.holding(user_id@, stock_symbol@), stock_type).quantity < quantity)
    &&& r == Err::<OrderResult, OrderError>(OrderError::InvalidMarket) ==> !pre.has_market(stock_symbol@)
    &&& r == Err::<OrderResult, OrderError>(OrderError::InvalidPrice) ==> pre.has_market(stock_symbol@)
        && !(1 <= price <= 99)
    &&& r == Err::<OrderResult, OrderError>(OrderError::InvalidQuantity) ==> pre.has_market(
        stock_symbol@,
    ) && 1 <= price <= 99 && quantity == 0
    &&& pre.has_market(stock_symbol@) && 1 <= price <= 99 && quantity > 0 && (order_type
        == OrderType::Buy ==> cash0.available(user_id@) >= price * quantity) && (order_type
        == OrderType::Sell ==> side_of(stocks0.holding(user_id@, stock_symbol@), stock_type).quantity
        >= quantity) ==> {
        let t = Order {
            id: pre.next_order_id(),
            user_id: user_id,
            stock_symbol: stock_symbol,
            stock_type: stock_type,
            order_type: order_type,
            price: price,
            original_quantity: quantity,
            quantity: quantity,
        };
        &&& r is Ok || r == Err::<OrderResult, OrderError>(OrderError::Internal)
        &&& r == Err::<OrderResult, OrderError>(OrderError::Internal) <==> internal_refusal(
            pre,
            cash0,
            stocks0,
            t,
        )
    }
    &&& forall|u: Seq<char>, s: Seq<char>, o: StockType|
        s != stock_symbol@ || o != stock_type ==> #[trigger] side_of(stocks1.holding(u, s), o)
            == side_of(stocks0.holding(u, s), o)
    &&& r is Err ==> {
        &&& cash1.accounts() == cash0.accounts()
        &&& forall|u: Seq<char>, s: Seq<char>| #[trigger] stocks1.holding(u, s)
            == stocks0.holding(u, s)
        &&& post.resting() == pre.resting()
        &&& post.next_order_id() == pre.next_order_id()
    }
    &&& r is Ok ==> ({
        let t = Order {
            id: pre.next_order_id(),
            user_id: user_id,
            stock_symbol: stock_symbol,
            stock_type: stock_type,
            order_type: order_type,
            price: price,
            original_quantity: quantity,
            quantity: quantity,
        };
        let m = match_spec(pre.resting(), t, quantity as nat);
        &&& r->Ok_0.order_id == t.id
        &&& r->Ok_0.fills@ == m.0
        &&& r->Ok_0.resting_qty == m.2
        &&& post.resting() == if m.2 > 0 {
            m.1.push(with_quantity(t, m.2 as u64))
        } else {
            m.1
        }
        &&& post.next_order_id() == t.id + 1
        &&& forall|u: Seq<char>| #[trigger] cash1.account(u) == cash_after_fills(
            cash_reserved(cash0, user_id@, order_type, price, quantity, u),
            u,
            t,
            match_makers(pre.resting(), t, quantity as nat),
            m.0,
        )
        &&& forall|u: Seq<char>| #[trigger] side_of(stocks1.holding(u, stock_symbol@), stock_type)
            == shares_after_fills(
            side_of(
                if order_type == OrderType::Sell {
                    reserved_shares(stocks0, user_id@, stock_symbol@, stock_type, quantity, u, stock_symbol@)
                } else {
                    stocks0.holding(u, stock_symbol@)
                },
                stock_type,
            ),
            u,
            t,
            match_makers(pre.resting(), t, quantity as nat),
            m.0,
        )
        &&& r->Ok_0.fills@.len() == 0 ==> {
            &&& order_type == OrderType::Buy ==> cash1.accounts() == cash0.accounts().insert(
                user_id@,
                reserved(cash0.account(user_id@), (price * quantity) as u64),
            ) && forall|u: Seq<char>, s: Seq<char>| #[trigger] stocks1.holding(u, s)
                == stocks0.holding(u, s)
            &&& order_type == OrderType::Sell ==> cash1.accounts() == cash0.accounts() && forall|
                u: Seq<char>,
                s: Seq<char>,
            | #[trigger] stocks1.holding(u, s) == reserved_shares(
                stocks0,
                user_id@,
                stock_symbol@,
                stock_type,
                quantity,
                u,
                s,
            )
        }
    })
    &&& post.next_order_id() >= pre.next_order_id()
}

/// The markets and every order resting in them, oldest first.
pub struct OrderBook {
    markets: Vec<String>,
    orders: Vec<Order>,
    next_id: u64,
}

impl OrderBook {
    pub closed spec fn has_market(&self, symbol: Seq<char>) -> bool {
        exists|i: int| 0 <= i < self.markets@.len() && self.markets@[i]@ == symbol
    }

    /// Resting order ids are unique and below the next id to be given.
    pub closed spec fn wf(&self) -> bool {
        ids_ok(self.orders@, self.next_id)
    }

    /// The resting orders in arrival order.
    pub closed spec fn resting(&self) -> Seq<Order> {
        self.orders@
    }

    /// The id the next submitted order gets.
    pub closed spec fn next_order_id(&self) -> u64 {
        self.next_id
    }

    pub fn new() -> (r: Self)
        ensures
            r.wf(),
            r.resting() == Seq::<Order>::empty(),
            forall|s: Seq<char>| !#[trigger] r.has_market(s),
            r.next_order_id() == 1,
    {
        OrderBook { markets: Vec::new(), orders: Vec::new(), next_id: 1 }
    }

    proof fn lemma_same_markets(&self, other: Self)
        requires
            self.markets@ == other.markets@,
        ensures
            forall|s: Seq<char>| #[trigger] self.has_market(s) == other.has_market(s),
    {
    }

    fn market_exists(&self, symbol: &String) -> (r: bool)
        ensures
            r == self.has_market(symbol@),
    {
        let mut i: usize = 0;
        while i < self.markets.len()
            invariant
                i <= self.markets@.len(),
                forall|j: int| 0 <= j < i ==> self.markets@[j]@ != symbol@,
            decreases self.markets@.len() - i,
        {
            if self.markets[i] == *symbol {
                return true;
            }
            i = i + 1;
        }
        false
    }

    /// Opens a market for `stock_symbol`, unless one is already open.
    pub fn create_market(&mut self, stock_symbol: String) -> (r: Result<(), OrderError>)
        requires
            old(self).wf(),
        ensures
            final(self).wf(),
            r == if old(self).has_market(stock_symbol@) {
                Err::<(), OrderError>(OrderError::MarketAlreadyExists)
            } else {
                Ok::<(), OrderError>(())
            },
            forall|s: Seq<char>| #[trigger] final(self).has_market(s) == (old(self).has_market(s)
                || s == stock_symbol@),
            final(self).resting() == old(self).resting(),
            final(self).next_order_id() == old(self).next_order_id(),
    {
        if self.market_exists(&stock_symbol) {
            return Err(OrderError::MarketAlreadyExists);
        }
        let ghost pre = self.markets@;
        let ghost sym = stock_symbol@;
        self.markets.push(stock_symbol);
        proof {
            assert forall|s: Seq<char>| #[trigger] self.has_market(s) == (old(self).has_market(s)
                || s == sym) by {
                if old(self).has_market(s) {
                    let k = choose|k: int| 0 <= k < pre.len() && pre[k]@ == s;
                    assert(self.markets@[k]@ == s);
                }
                if s == sym {
                    assert(self.markets@[pre.len() as int]@ == s);
                }
                if self.has_market(s) {
                    let k = choose|k: int| 0 <= k < self.markets@.len() && self.markets@[k]@ == s;
                    if k < pre.len() {
                        assert(pre[k]@ == s);
                    }
                }
            }
        }
        Ok(())
    }
    /// Validates an order, reserves what it may spend, crosses it against the book in
    /// price-time priority, settles each fill, and rests what is left.
    #[verifier::rlimit(100)]
    pub fn submit_order(
        &mut self,
        cash: &mut InrBalance,
        stocks: &mut StockBalance,
        user_id: String,
        stock_symbol: String,
        stock_type: StockType,
        order_type: OrderType,
        price: u64,
        quantity: u64,
    ) -> (r: Result<OrderResult, OrderError>)
        requires
            old(self).wf(),
            old(cash).wf(),
            old(stocks).wf(),
        ensures
            final(self).wf(),
            final(cash).wf(),
            final(stocks).wf(),
            submit_outcome(
                *old(self),
                *final(self),
                *old(cash),
                *final(cash),
                *old(stocks),
                *final(stocks),
                user_id,
                stock_symbol,
                stock_type,
                order_type,
                price,
                quantity,
                r,
            ),
    {
        if !self.market_exists(&stock_symbol) {
            return Err(OrderError::InvalidMarket);
        }
        if price < 1 || price > 99 {
            return Err(OrderError::InvalidPrice);
        }
        if quantity == 0 {
            return Err(OrderError::InvalidQuantity);
        }
        let cash_snap = cash.duplicate();
        let stocks_snap = stocks.duplicate();
        let orders_snap = copy_orders(&self.orders);
        match order_type {
            OrderType::Buy => {
                let available: u64 = match cash.get_balance(user_id.clone()) {
                    Some(b) => b.balance,
                    None => 0,
                };
                proof {
                    lemma_u64_product_fits(price, quantity);
                }
                if (available as u128) < price as u128 * quantity as u128 {
                    return Err(OrderError::InsufficientFunds);
                }
                if self.next_id == u64::MAX {
                    return Err(OrderError::Internal);
                }
                if cash.lock_balance(user_id.clone(), price * quantity).is_err() {
                    return Err(OrderError::Internal);
                }
            },
            OrderType::Sell => {
                let held = get_side(
                    &stocks.get_stock_balance(&user_id, &stock_symbol),
                    stock_type,
                );
                if held.quantity < quantity {
                    return Err(OrderError::InsufficientShares);
                }
                if self.next_id == u64::MAX {
                    return Err(OrderError::Internal);
                }
                if stocks.lock_stock(user_id.clone(), stock_symbol.clone(), stock_type, quantity).is_err() {
                    return Err(OrderError::Internal);
                }
            },
        }
        let id = self.next_id;
        self.next_id = id + 1;
        let taker = Order {
            id,
            user_id: user_id.clone(),
            stock_symbol: stock_symbol.clone(),
            stock_type,
            order_type,
            price,
            original_quantity: quantity,
            quantity,
        };
        let ghost book0 = self.orders@;
        let ghost cash_r = *cash;
        let ghost stocks_r = *stocks;
        let ghost mk0 = match_makers(book0, taker, quantity as nat);
        let ghost cash_at = reserved_cash_at(*old(cash), taker);
        let ghost shares_at = reserved_shares_at(*old(stocks), taker);
        proof {
            assert forall|v: Seq<char>| #[trigger] cash_r.account(v) == cash_at(v) by {}
            assert forall|v: Seq<char>| #[trigger] side_of(stocks_r.holding(v, stock_symbol@), stock_type)
                == shares_at(v) by {}
        }
        let ghost mut makers: Seq<Order> = Seq::empty();
        let ghost m0 = match_spec(book0, taker, quantity as nat);
        let mut rem: u64 = quantity;
        let mut fills: Vec<Fill> = Vec::new();
        let mut done = false;
        while !done && rem > 0
            invariant
                cash.wf(),
                stocks.wf(),
                cash.total() == old(cash).total(),
                forall|s: Seq<char>, o: StockType| #[trigger] stocks.share_total(s, o) == old(
                    stocks,
                ).share_total(s, o),
                self.markets@ == old(self).markets@,
                old(self).has_market(stock_symbol@),
                1 <= price <= 99,
                quantity > 0,
                order_type == OrderType::Buy ==> old(cash).available(user_id@) >= price * quantity,
                order_type == OrderType::Sell ==> side_of(
                    old(stocks).holding(user_id@, stock_symbol@),
                    stock_type,
                ).quantity >= quantity,
                self.next_id == id + 1,
                id == old(self).next_id,
                ids_ok(self.orders@, id),
                taker.order_type == order_type,
                taker.price == price,
                taker.quantity == quantity,
                taker.original_quantity == quantity,
                rem <= quantity,
                taker.id == id,
                taker.stock_type == stock_type,
                taker.user_id == user_id,
                taker.stock_symbol == stock_symbol,
                fills@ + match_spec(self.orders@, taker, rem as nat).0 == m0.0,
                match_spec(self.orders@, taker, rem as nat).1 == m0.1,
                match_spec(self.orders@, taker, rem as nat).2 == m0.2,
                fills@.len() == 0 ==> cash.accounts() == cash_r.accounts() && forall|u: Seq<char>,
                    s: Seq<char>| #[trigger] stocks.holding(u, s) == stocks_r.holding(u, s),
                order_type == OrderType::Buy ==> cash_r.accounts() == old(cash).accounts().insert(
                    user_id@,
                    reserved(old(cash).account(user_id@), (price * quantity) as u64),
                ) && forall|u: Seq<char>, s: Seq<char>| #[trigger] stocks_r.holding(u, s)
                    == old(stocks).holding(u, s),
                order_type == OrderType::Sell ==> cash_r.accounts() == old(cash).accounts() && forall|
                    u: Seq<char>,
                    s: Seq<char>,
                | #[trigger] stocks_r.holding(u, s) == reserved_shares(
                    *old(stocks),
                    user_id@,
                    stock_symbol@,
                    stock_type,
                    quantity,
                    u,
                    s,
                ),
                makers.len() == fills@.len(),
                makers + match_makers(self.orders@, taker, rem as nat) == mk0,
                forall|u: Seq<char>| #[trigger] cash.account(u) == cash_after_fills(
                    cash_r.account(u),
                    u,
                    taker,
                    makers,
                    fills@,
                ),
                forall|u: Seq<char>| #[trigger] side_of(stocks.holding(u, stock_symbol@), stock_type)
                    == shares_after_fills(
                    side_of(stocks_r.holding(u, stock_symbol@), stock_type),
                    u,
                    taker,
                    makers,
                    fills@,
                ),
                done ==> match_makers(self.orders@, taker, rem as nat) == Seq::<Order>::empty(),
                forall|v: Seq<char>| #[trigger] cash_r.account(v) == cash_at(v),
                forall|v: Seq<char>| #[trigger] side_of(stocks_r.holding(v, stock_symbol@), stock_type)
                    == shares_at(v),
                fills_settle(cash_at, shares_at, taker, makers, fills@),
                forall|u: Seq<char>, s: Seq<char>, o: StockType|
                    s != stock_symbol@ || o != stock_type ==> #[trigger] side_of(stocks.holding(u, s), o)
                        == side_of(old(stocks).holding(u, s), o),
                cash_snap.wf(),
                stocks_snap.wf(),
                cash_snap.accounts() == old(cash).accounts(),
                cash_snap.total() == old(cash).total(),
                forall|u: Seq<char>, s: Seq<char>| #[trigger] stocks_snap.holding(u, s) == old(stocks).holding(u, s),
                forall|s: Seq<char>, o: StockType| #[trigger] stocks_snap.share_total(s, o) == old(stocks).share_total(s, o),
                orders_snap@ == old(self).orders@,
                ids_ok(old(self).orders@, id),
                book0 == old(self).orders@,
                mk0 == match_makers(book0, taker, quantity as nat),
                m0 == match_spec(book0, taker, quantity as nat),
                cash_at == reserved_cash_at(*old(cash), taker),
                shares_at == reserved_shares_at(*old(stocks), taker),
                done ==> match_spec(self.orders@, taker, rem as nat) == (
                    Seq::<Fill>::empty(),
                    self.orders@,
                    rem as nat,
                ),
            decreases rem as int * 2 + if done {
                0int
            } else {
                1int
            },
        {
            match find_best(&self.orders, &taker) {
                None => {
                    done = true;
                },
                Some(j) => {
                    let mq = self.orders[j].quantity;
                    let x: u64 = if rem < mq {
                        rem
                    } else {
                        mq
                    };
                    if x == 0 {
                        done = true;
                    } else {
                        let ghost before = self.orders@;
                        let mprice = self.orders[j].price;
                        let mid = self.orders[j].id;
                        let maker_user = self.orders[j].user_id.clone();
                        let ok = match order_type {
                            OrderType::Buy => settle(
                                cash,
                                stocks,
                                &stock_symbol,
                                stock_type,
                                &user_id,
                                &maker_user,
                                price,
                                mprice,
                                x,
                            ),
                            OrderType::Sell => settle(
                                cash,
                                stocks,
                                &stock_symbol,
                                stock_type,
                                &maker_user,
                                &user_id,
                                mprice,
                                mprice,
                                x,
                            ),
                        };
                        if !ok {
                            proof {
                                let k = fills@.len() as int;
                                let step = match_spec(before, taker, rem as nat);
                                let mstep = match_makers(before, taker, rem as nat);
                                assert(m0.0 == fills@ + step.0);
                                assert(mk0 == makers + mstep);
                                assert(m0.0.take(k) =~= fills@);
                                assert(mk0.take(k) =~= makers);
                                assert(m0.0[k] == step.0[0]);
                                assert(mk0[k] == mstep[0]);
                                assert(!fill_settles(cash_at, shares_at, taker, mk0, m0.0, k));
                            }
                            *cash = cash_snap;
                            *stocks = stocks_snap;
                            self.orders = orders_snap;
                            self.next_id = id;
                            proof {
                                self.lemma_same_markets(*old(self));
                                assert(self.orders@ == old(self).orders@);
                                assert(self.wf());
                                let t = Order {
                                    id: old(self).next_id,
                                    user_id: user_id,
                                    stock_symbol: stock_symbol,
                                    stock_type: stock_type,
                                    order_type: order_type,
                                    price: price,
                                    original_quantity: quantity,
                                    quantity: quantity,
                                };
                                assert(t == taker);
                                assert(!fills_settle(cash_at, shares_at, taker, mk0, m0.0));
                                assert(old(self).resting() == book0);
                                assert(mk0 == match_makers(old(self).resting(), t, t.quantity as nat));
                                assert(m0.0 == match_spec(old(self).resting(), t, t.quantity as nat).0);
                                assert(cash_at == reserved_cash_at(*old(cash), t));
                                assert(shares_at == reserved_shares_at(*old(stocks), t));
                                assert(internal_refusal(*old(self), *old(cash), *old(stocks), t));
                            }
                            return Err(OrderError::Internal);
                        }
                        let ghost fills_before = fills@;
                        let ghost makers_before = makers;
                        let fill = Fill { maker_order_id: mid, taker_order_id: id, price: mprice, quantity: x };
                        fills.push(fill);
                        if x == mq {
                            let _ = self.orders.remove(j);
                            proof {
                                lemma_ids_remove(before, j as int, id);
                            }
                        } else {
                            let nm = copy_order(&self.orders[j], mq - x);
                            self.orders.set(j, nm);
                            proof {
                                lemma_ids_update(before, j as int, (mq - x) as u64, id);
                            }
                        }
                        rem = rem - x;
                        proof {
                            let step = match_spec(before, taker, (rem + x) as nat);
                            let rest = match_spec(self.orders@, taker, rem as nat);
                            assert(step.0 == seq![fill] + rest.0);
                            assert(fills@ + rest.0 =~= fills_before + step.0);
                            makers = makers_before.push(before[j as int]);
                            let mstep = match_makers(before, taker, (rem + x) as nat);
                            let mrest = match_makers(self.orders@, taker, rem as nat);
                            assert(mstep == seq![before[j as int]] + mrest);
                            assert(makers + mrest =~= makers_before + mstep);
                            assert(makers.take(makers_before.len() as int) =~= makers_before);
                            assert(fills@.drop_last() =~= fills_before);
                            assert(fills@.take(fills_before.len() as int) =~= fills_before);
                            assert forall|k: int| 0 <= k < fills@.len() implies #[trigger] fill_settles(
                                cash_at,
                                shares_at,
                                taker,
                                makers,
                                fills@,
                                k,
                            ) by {
                                if k < fills_before.len() {
                                    assert(fill_settles(cash_at, shares_at, taker, makers_before, fills_before, k));
                                    assert(makers.take(k) =~= makers_before.take(k));
                                    assert(fills@.take(k) =~= fills_before.take(k));
                                }
                            }
                        }
                    }
                },
            }
        }
        let ghost settled = self.orders@;
        if rem > 0 {
            let rest = copy_order(&taker, rem);
            self.orders.push(rest);
        }
        proof {
            assert forall|i: int| 0 <= i < self.orders@.len() implies #[trigger] self.orders@[i].id
                < self.next_id && self.orders@[i].quantity > 0 && self.orders@[i].quantity
                <= self.orders@[i].original_quantity by {
                if i < settled.len() {
                    assert(settled[i].id < id);
                    assert(settled[i].quantity > 0);
                    assert(settled[i].quantity <= settled[i].original_quantity);
                } else {
                    assert(self.orders@[i] == with_quantity(taker, rem));
                }
            }
            assert forall|a: int, b: int| 0 <= a < b < self.orders@.len() implies self.orders@[a].id
                < self.orders@[b].id by {
                if b < settled.len() {
                    assert(settled[a].id < settled[b].id);
                } else {
                    assert(settled[a].id < id);
                }
            }
        }
        proof {
            self.lemma_same_markets(*old(self));
        }
        Ok(OrderResult { order_id: id, fills, resting_qty: rem })
    }
    /// Buys Yes shares at `price` or better.
    pub fn order_buy_yes(
        &mut self,
        cash: &mut InrBalance,
        stocks: &mut StockBalance,
        user_id: String,
        stock_symbol: String,
        price: u64,
        quantity: u64,
    ) -> (r: Result<OrderResult, OrderError>)
        requires
            old(self).wf(),
            old(cash).wf(),
            old(stocks).wf(),
        ensures
            final(self).wf(),
            final(cash).wf(),
            final(stocks).wf(),
            submit_outcome(
                *old(self),
                *final(self),
                *old(cash),
                *final(cash),
                *old(stocks),
                *final(stocks),
                user_id,
                stock_symbol,
                StockType::Yes,
                OrderType::Buy,
                price,
                quantity,
                r,
            ),
    {
        self.submit_order(
            cash,
            stocks,
            user_id,
            stock_symbol,
            StockType::Yes,
            OrderType::Buy,
            price,
            quantity,
        )
    }

    /// Buys No shares at `price` or better.
    pub fn order_buy_no(
        &mut self,
        cash: &mut InrBalance,
        stocks: &mut StockBalance,
        user_id: String,
        stock_symbol: String,
        price: u64,
        quantity: u64,
    ) -> (r: Result<OrderResult, OrderError>)
        requires
            old(self).wf(),
            old(cash).wf(),
            old(stocks).wf(),
        ensures
            final(self).wf(),
            final(cash).wf(),
            final(stocks).wf(),
            submit_outcome(
                *old(self),
                *final(self),
                *old(cash),
                *final(cash),
                *old(stocks),
                *final(stocks),
                user_id,
                stock_symbol,
                StockType::No,
                OrderType::Buy,
                price,
                quantity,
                r,
            ),
    {
        self.submit_order(
            cash,
            stocks,
            user_id,
            stock_symbol,
            StockType::No,
            OrderType::Buy,
            price,
            quantity,
        )
    }

    /// Sells Yes shares at `price` or better.
    pub fn order_sell_yes(
        &mut self,
        cash: &mut InrBalance,
        stocks: &mut StockBalance,
        user_id: String,
        stock_symbol: String,
        price: u64,
        quantity: u64,
    ) -> (r: Result<OrderResult, OrderError>)
        requires
            old(self).wf(),
            old(cash).wf(),
            old(stocks).wf(),
        ensures
            final(self).wf(),
            final(cash).wf(),
            final(stocks).wf(),
            submit_outcome(
                *old(self),
                *final(self),
                *old(cash),
                *final(cash),
                *old(stocks),
                *final(stocks),
                user_id,
                stock_symbol,
                StockType::Yes,
                OrderType::Sell,
                price,
                quantity,
                r,
            ),
    {
        self.submit_order(
            cash,
            stocks,
            user_id,
            stock_symbol,
            StockType::Yes,
            OrderType::Sell,
            price,
            quantity,
        )
    }

    /// Sells No shares at `price` or better.
    pub fn order_sell_no(
        &mut self,
        cash: &mut InrBalance,
        stocks: &mut StockBalance,
        user_id: String,
        stock_symbol: String,
        price: u64,
        quantity: u64,
    ) -> (r: Result<OrderResult, OrderError>)
        requires
            old(self).wf(),
            old(cash).wf(),
            old(stocks).wf(),
        ensures
            final(self).wf(),
            final(cash).wf(),
            final(stocks).wf(),
            submit_outcome(
                *old(self),
                *final(self),
                *old(cash),
                *final(cash),
                *old(stocks),
                *final(stocks),
                user_id,
                stock_symbol,
                StockType::No,
                OrderType::Sell,
                price,
                quantity,
                r,
            ),
    {
        self.submit_order(
            cash,
            stocks,
            user_id,
            stock_symbol,
            StockType::No,
            OrderType::Sell,
            price,
            quantity,
        )
    }

    /// Withdraws a resting order of `user_id` and releases what it still had reserved.
    pub fn cancel_order(
        &mut self,
        cash: &mut InrBalance,
        stocks: &mut StockBalance,
        user_id: String,
        order_id: u64,
    ) -> (r: Result<(), OrderError>)
        requires
            old(self).wf(),
            old(cash).wf(),
            old(stocks).wf(),
        ensures
            final(self).wf(),
            final(cash).wf(),
            final(stocks).wf(),
            final(cash).total() == old(cash).total(),
            forall|s: Seq<char>, o: StockType| #[trigger] final(stocks).share_total(s, o) == old(
                stocks,
            ).share_total(s, o),
            forall|s: Seq<char>| #[trigger] final(self).has_market(s) == old(self).has_market(s),
            final(self).next_order_id() == old(self).next_order_id(),
            (r == Err::<(), OrderError>(OrderError::OrderNotFound)) <==> !has_order(
                old(self).resting(),
                order_id,
            ),
            r is Err ==> final(self).resting() == old(self).resting(),
            (r is Ok) <==> has_order(old(self).resting(), order_id) && old(self).resting()[order_index(
                old(self).resting(),
                order_id,
            )].user_id@ == user_id@ && release_ok(
                *old(cash),
                *old(stocks),
                old(self).resting()[order_index(old(self).resting(), order_id)],
            ),
            r is Err ==> {
                &&& final(cash).accounts() == old(cash).accounts()
                &&& forall|u: Seq<char>, s: Seq<char>| #[trigger] final(stocks).holding(u, s)
                    == old(stocks).holding(u, s)
            },
            has_order(old(self).resting(), order_id) ==> ({
                let k = order_index(old(self).resting(), order_id);
                let o = old(self).resting()[k];
                &&& (r == Err::<(), OrderError>(OrderError::NotOwner)) <==> o.user_id@ != user_id@
                &&& r is Ok ==> {
                    &&& final(self).resting() == old(self).resting().remove(k)
                    &&& !has_order(final(self).resting(), order_id)
                    &&& o.order_type == OrderType::Buy ==> final(cash).accounts() == old(
                        cash,
                    ).accounts().insert(
                        user_id@,
                        released(old(cash).account(user_id@), (o.price * o.quantity) as u64),
                    )
                    &&& o.order_type == OrderType::Sell ==> forall|u: Seq<char>, s: Seq<char>|
                        #[trigger] final(stocks).holding(u, s) == if u == user_id@ && s
                            == o.stock_symbol@ {
                            with_side(
                                old(stocks).holding(u, s),
                                o.stock_type,
                                StockQuantity {
                                    quantity: (side_of(old(stocks).holding(u, s), o.stock_type).quantity
                                        + o.quantity) as u64,
                                    locked: (side_of(old(stocks).holding(u, s), o.stock_type).locked
                                        - o.quantity) as u64,
                                },
                            )
                        } else {
                            old(stocks).holding(u, s)
                        }
                }
            }),
    {
        let mut i: usize = 0;
        while i < self.orders.len() && self.orders[i].id != order_id
            invariant
                i <= self.orders@.len(),
                forall|j: int| 0 <= j < i ==> self.orders@[j].id != order_id,
            decreases self.orders@.len() - i,
        {
            i = i + 1;
        }
        if i == self.orders.len() {
            return Err(OrderError::OrderNotFound);
        }
        proof {
            lemma_order_index(self.orders@, i as int, self.next_id);
        }
        if self.orders[i].user_id != user_id {
            return Err(OrderError::NotOwner);
        }
        let released_ok = match self.orders[i].order_type {
            OrderType::Buy => {
                proof {
                    lemma_u64_product_fits(self.orders[i as int].price, self.orders[i as int].quantity);
                }
                let amount: u128 = self.orders[i].price as u128 * self.orders[i].quantity as u128;
                if amount > u64::MAX as u128 {
                    false
                } else {
                    cash.unlock_balance(user_id, amount as u64).is_ok()
                }
            },
            OrderType::Sell => {
                let symbol = self.orders[i].stock_symbol.clone();
                stocks.unlock_stock(user_id, symbol, self.orders[i].stock_type, self.orders[i].quantity).is_ok()
            },
        };
        if !released_ok {
            return Err(OrderError::Internal);
        }
        let ghost pre = self.orders@;
        let _ = self.orders.remove(i);
        proof {
            lemma_ids_remove(pre, i as int, self.next_id);
            self.lemma_same_markets(*old(self));
        }
        Ok(())
    }
    /// The price level of `stock_symbol`'s `stock_type` outcome on side `order_type` at `price`.
    pub fn get_price_entry(
        &self,
        stock_symbol: &String,
        stock_type: StockType,
        order_type: OrderType,
        price: u64,
    ) -> (r: PriceEntry)
        ensures
            r.price == price,
            r.orders@ == ids_of(level_of(self.resting(), stock_symbol@, stock_type, order_type, price)),
            r.total == quantity_sum(level_of(self.resting(), stock_symbol@, stock_type, order_type, price)),
    {
        let mut orders: Vec<u64> = Vec::new();
        let mut total: u128 = 0;
        let mut i: usize = 0;
        while i < self.orders.len()
            invariant
                i <= self.orders@.len(),
                orders@ == ids_of(level_of(self.orders@.take(i as int), stock_symbol@, stock_type, order_type, price)),
                total == quantity_sum(level_of(self.orders@.take(i as int), stock_symbol@, stock_type, order_type, price)),
                total <= i * (u64::MAX as int),
            decreases self.orders@.len() - i,
        {
            let ghost prefix = self.orders@.take(i as int);
            let ghost next = self.orders@.take(i + 1);
            proof {
                assert(next.drop_last() =~= prefix);
                assert(next.last() == self.orders@[i as int]);
            }
            let o = &self.orders[i];
            if o.stock_symbol == *stock_symbol && o.stock_type == stock_type && o.order_type
                == order_type && o.price == price {
                let ghost lv = level_of(prefix, stock_symbol@, stock_type, order_type, price);
                orders.push(o.id);
                total = total + o.quantity as u128;
                proof {
                    assert(lv.push(self.orders@[i as int]).drop_last() =~= lv);
                    assert(ids_of(lv.push(self.orders@[i as int])) =~= ids_of(lv).push(o.id));
                }
            }
            i = i + 1;
        }
        proof {
            assert(self.orders@.take(i as int) =~= self.orders@);
        }
        PriceEntry { price, total, orders }
    }
    fn market_ids(&self, stock_symbol: &String, stock_type: StockType, side: OrderType) -> (r: Vec<u64>)
        ensures
            r@ == ids_of(market_orders(self.resting(), stock_symbol@, stock_type, side)),
    {
        let mut ids: Vec<u64> = Vec::new();
        let mut i: usize = 0;
        while i < self.orders.len()
            invariant
                i <= self.orders@.len(),
                ids@ == ids_of(market_orders(self.orders@.take(i as int), stock_symbol@, stock_type, side)),
            decreases self.orders@.len() - i,
        {
            let ghost prefix = self.orders@.take(i as int);
            let ghost next = self.orders@.take(i + 1);
            proof {
                assert(next.drop_last() =~= prefix);
                assert(next.last() == self.orders@[i as int]);
            }
            let o = &self.orders[i];
            if o.stock_symbol == *stock_symbol && o.stock_type == stock_type && o.order_type == side {
                let ghost mo = market_orders(prefix, stock_symbol@, stock_type, side);
                ids.push(o.id);
                proof {
                    assert(ids_of(mo.push(self.orders@[i as int])) =~= ids_of(mo).push(o.id));
                }
            }
            i = i + 1;
        }
        proof {
            assert(self.orders@.take(i as int) =~= self.orders@);
        }
        ids
    }

    /// The ids of the orders resting in market `stock_symbol`, by outcome and side, oldest first.
    pub fn get_stock_orders(&self, stock_symbol: &String) -> (r: StockOrders)
        ensures
            r.yes_buy@ == ids_of(market_orders(self.resting(), stock_symbol@, StockType::Yes, OrderType::Buy)),
            r.yes_sell@ == ids_of(market_orders(self.resting(), stock_symbol@, StockType::Yes, OrderType::Sell)),
            r.no_buy@ == ids_of(market_orders(self.resting(), stock_symbol@, StockType::No, OrderType::Buy)),
            r.no_sell@ == ids_of(market_orders(self.resting(), stock_symbol@, StockType::No, OrderType::Sell)),
    {
        StockOrders {
            yes_buy: self.market_ids(stock_symbol, StockType::Yes, OrderType::Buy),
            yes_sell: self.market_ids(stock_symbol, StockType::Yes, OrderType::Sell),
            no_buy: self.market_ids(stock_symbol, StockType::No, OrderType::Buy),
            no_sell: self.market_ids(stock_symbol, StockType::No, OrderType::Sell),
        }
    }
}

} // verus!
