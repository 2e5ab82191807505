//! Engine behaviour on concrete inputs: the documented scenarios and the laws.

use orderbook::order::{CancelOrder, NewOrder};
use orderbook::order_book::{OrderBook, TopOfBook};
use orderbook::order_books::OrderBooks;
use orderbook::order_result::OrderResult;

fn ack(user: u64, user_order_id: u64) -> OrderResult {
    OrderResult::Acknowledgement { user, user_order_id }
}

fn rej(user: u64, user_order_id: u64) -> OrderResult {
    OrderResult::Rejection { user, user_order_id }
}

fn top(side: char, price: &str, total_quantity: &str) -> OrderResult {
    OrderResult::TopOfBookChange { side, price: price.to_string(), total_quantity: total_quantity.to_string() }
}

fn new(user: u64, symbol: &str, price: u64, qty: u64, side: char, user_order_id: u64) -> NewOrder {
    NewOrder::new(user, symbol.to_string(), price, qty, side, user_order_id)
}

#[test]
fn single_symbol_without_cross() {
    let mut books = OrderBooks::new(false);
    let mut out = vec![];
    out.append(&mut books.add_order(new(1, "IBM", 10, 100, 'B', 1)));
    out.append(&mut books.add_order(new(1, "IBM", 12, 100, 'S', 2)));
    out.append(&mut books.add_order(new(2, "IBM", 9, 100, 'B', 101)));
    out.append(&mut books.add_order(new(2, "IBM", 11, 100, 'S', 102)));
    out.append(&mut books.add_order(new(1, "IBM", 11, 100, 'B', 3)));
    out.append(&mut books.add_order(new(2, "IBM", 10, 100, 'S', 103)));
    out.append(&mut books.add_order(new(1, "IBM", 10, 100, 'B', 4)));
    out.append(&mut books.add_order(new(2, "IBM", 11, 100, 'S', 104)));
    assert_eq!(
        out,
        vec![
            ack(1, 1),
            top('B', "10", "100"),
            ack(1, 2),
            top('S', "12", "100"),
            ack(2, 101),
            ack(2, 102),
            top('S', "11", "100"),
            rej(1, 3),
            rej(2, 103),
            ack(1, 4),
            top('B', "10", "200"),
            ack(2, 104),
            top('S', "11", "200"),
        ]
    );
}

#[test]
fn equal_quantity_match_with_trading_enabled() {
    let mut books = OrderBooks::new(true);
    let mut out = vec![];
    out.append(&mut books.add_order(new(1, "AAPL", 10, 100, 'S', 1)));
    out.append(&mut books.add_order(new(2, "AAPL", 10, 100, 'B', 101)));
    let rendered: Vec<String> = out.iter().map(|r| r.to_string()).collect();
    assert_eq!(rendered, vec!["A, 1, 1", "B, S, 10, 100", "A, 2, 101", "T, 2, 101, 1, 1, 10, 100", "B, S, -, -"]);
}

#[test]
fn crossing_without_equal_quantity_is_only_acknowledged() {
    let mut books = OrderBooks::new(true);
    let mut out = vec![];
    out.append(&mut books.add_order(new(1, "AAPL", 10, 100, 'S', 1)));
    out.append(&mut books.add_order(new(2, "AAPL", 10, 50, 'B', 101)));
    assert_eq!(out, vec![ack(1, 1), top('S', "10", "100"), ack(2, 101)]);
    // The buy did not rest: a sell at 10 still crosses nothing on the buy side.
    assert_eq!(books.add_order(new(3, "AAPL", 9, 10, 'S', 7)), vec![ack(3, 7), top('S', "9", "10")]);
}

#[test]
fn cancel_of_unknown_order_is_acknowledged_only() {
    let mut books = OrderBooks::new(false);
    let mut out = vec![];
    out.append(&mut books.add_order(new(1, "IBM", 10, 100, 'B', 1)));
    out.append(&mut books.cancel_order(CancelOrder::new(2, 101)));
    out.append(&mut books.cancel_order(CancelOrder::new(1, 1)));
    assert_eq!(out, vec![ack(1, 1), top('B', "10", "100"), ack(2, 101), ack(1, 1), top('B', "-", "-")]);
}

#[test]
fn second_cancel_only_acknowledges() {
    let mut books = OrderBooks::new(false);
    books.add_order(new(1, "IBM", 10, 100, 'B', 1));
    books.add_order(new(2, "IBM", 9, 100, 'B', 2));
    assert_eq!(books.cancel_order(CancelOrder::new(1, 1)), vec![ack(1, 1), top('B', "9", "100")]);
    assert_eq!(books.cancel_order(CancelOrder::new(1, 1)), vec![ack(1, 1)]);
}

#[test]
fn flush_then_add_is_a_fresh_add() {
    let mut books = OrderBooks::new(false);
    books.add_order(new(1, "IBM", 10, 100, 'B', 1));
    books.add_order(new(2, "MSFT", 20, 5, 'S', 2));
    books.flush();
    let after_flush = books.add_order(new(1, "IBM", 10, 100, 'B', 1));
    let mut fresh = OrderBooks::new(false);
    let on_fresh = fresh.add_order(new(1, "IBM", 10, 100, 'B', 1));
    assert_eq!(after_flush, on_fresh);
    assert_eq!(after_flush, vec![ack(1, 1), top('B', "10", "100")]);
    // The MSFT book is gone too: a buy at 25 no longer crosses.
    assert_eq!(books.add_order(new(3, "MSFT", 25, 5, 'B', 3)), vec![ack(3, 3), top('B', "25", "5")]);
}

#[test]
fn add_cancel_add_repeats_its_events() {
    let mut books = OrderBooks::new(false);
    books.add_order(new(1, "IBM", 10, 100, 'B', 1));
    books.add_order(new(1, "IBM", 12, 100, 'S', 2));
    let first = books.add_order(new(2, "IBM", 10, 30, 'B', 9));
    let cancel = books.cancel_order(CancelOrder::new(2, 9));
    let second = books.add_order(new(2, "IBM", 10, 30, 'B', 9));
    assert_eq!(first, vec![ack(2, 9), top('B', "10", "130")]);
    assert_eq!(cancel, vec![ack(2, 9), top('B', "10", "100")]);
    assert_eq!(first, second);
}

#[test]
fn no_top_event_when_the_top_stays() {
    let mut books = OrderBooks::new(false);
    books.add_order(new(1, "IBM", 10, 100, 'B', 1));
    assert_eq!(books.add_order(new(1, "IBM", 8, 100, 'B', 2)), vec![ack(1, 2)]);
    assert_eq!(books.cancel_order(CancelOrder::new(1, 2)), vec![ack(1, 2)]);
}

#[test]
fn incoming_sell_matches_highest_buy_first() {
    let mut book = OrderBook::new("X", true);
    book.add_order(new(1, "X", 10, 100, 'B', 1));
    book.add_order(new(2, "X", 12, 100, 'B', 2));
    let out = book.add_order(new(3, "X", 9, 100, 'S', 3));
    assert_eq!(
        out,
        vec![
            ack(3, 3),
            OrderResult::Trade { user_buy: 2, user_order_id_buy: 2, user_sell: 3, user_order_id_sell: 3, price: 12, qty: 100 },
            top('B', "10", "100"),
        ]
    );
}

#[test]
fn incoming_buy_matches_lowest_sell_then_first_arrival() {
    let mut book = OrderBook::new("X", true);
    book.add_order(new(1, "X", 11, 50, 'S', 1));
    book.add_order(new(2, "X", 11, 100, 'S', 2));
    book.add_order(new(3, "X", 11, 100, 'S', 3));
    book.add_order(new(4, "X", 10, 70, 'S', 4));
    let out = book.add_order(new(5, "X", 11, 100, 'B', 5));
    // The 10 level has no order of quantity 100; at 11 the earlier order of 100 trades.
    // The sell top (10, 70) does not move.
    assert_eq!(
        out,
        vec![
            ack(5, 5),
            OrderResult::Trade { user_buy: 5, user_order_id_buy: 5, user_sell: 2, user_order_id_sell: 2, price: 11, qty: 100 },
        ]
    );
    // The matched order is gone: the remaining 100 at 11 is order 3.
    let out = book.add_order(new(6, "X", 11, 100, 'B', 6));
    assert_eq!(
        out,
        vec![
            ack(6, 6),
            OrderResult::Trade { user_buy: 6, user_order_id_buy: 6, user_sell: 3, user_order_id_sell: 3, price: 11, qty: 100 },
        ]
    );
    let out = book.add_order(new(7, "X", 11, 100, 'B', 7));
    assert_eq!(out, vec![ack(7, 7)]);
}

#[test]
fn match_at_best_level_lowers_its_total() {
    let mut book = OrderBook::new("X", true);
    book.add_order(new(1, "X", 10, 40, 'S', 1));
    book.add_order(new(2, "X", 10, 60, 'S', 2));
    let out = book.add_order(new(3, "X", 10, 40, 'B', 3));
    assert_eq!(
        out,
        vec![
            ack(3, 3),
            OrderResult::Trade { user_buy: 3, user_order_id_buy: 3, user_sell: 1, user_order_id_sell: 1, price: 10, qty: 40 },
            top('S', "10", "60"),
        ]
    );
}

#[test]
fn sell_at_highest_buy_is_rejected() {
    let mut book = OrderBook::new("X", false);
    book.add_order(new(1, "X", 10, 100, 'B', 1));
    assert_eq!(book.add_order(new(2, "X", 10, 100, 'S', 2)), vec![rej(2, 2)]);
    assert_eq!(book.add_order(new(2, "X", 11, 100, 'S', 3)), vec![ack(2, 3), top('S', "11", "100")]);
}

#[test]
fn cancel_reports_buy_then_sell() {
    let mut book = OrderBook::new("X", false);
    book.add_order(new(1, "X", 10, 100, 'B', 1));
    book.add_order(new(1, "X", 12, 100, 'S', 1));
    assert_eq!(book.cancel_order(&CancelOrder::new(1, 1)), vec![top('B', "-", "-"), top('S', "-", "-")]);
}

#[test]
fn aggregate_quantity_saturates() {
    let mut book = OrderBook::new("X", false);
    book.add_order(new(1, "X", 10, u64::MAX, 'B', 1));
    let out = book.add_order(new(1, "X", 10, 5, 'B', 2));
    // The aggregate stays at the largest value, so the top does not change.
    assert_eq!(out, vec![ack(1, 2)]);
}

#[test]
fn cancel_fans_out_in_order_of_first_symbol() {
    let mut books = OrderBooks::new(false);
    books.add_order(new(1, "MSFT", 10, 100, 'B', 1));
    books.add_order(new(1, "AAPL", 20, 100, 'S', 1));
    assert_eq!(books.cancel_order(CancelOrder::new(1, 1)), vec![ack(1, 1), top('B', "-", "-"), top('S', "-", "-")]);
}

#[test]
fn top_of_book_renders_extremes() {
    let t = TopOfBook::new('S', Some(0), Some(u64::MAX));
    assert_eq!(t.to_order_result().to_string(), "B, S, 0, 18446744073709551615");
    assert_eq!(TopOfBook::new('B', None, None).to_order_result().to_string(), "B, B, -, -");
}

#[test]
fn cancel_after_add_on_new_symbol_empties_its_book() {
    let mut books = OrderBooks::new(false);
    books.add_order(new(1, "IBM", 10, 100, 'B', 1));
    let first = books.add_order(new(2, "AAPL", 7, 40, 'S', 5));
    let cancel = books.cancel_order(CancelOrder::new(2, 5));
    let second = books.add_order(new(2, "AAPL", 7, 40, 'S', 5));
    assert_eq!(first, vec![ack(2, 5), top('S', "7", "40")]);
    assert_eq!(cancel, vec![ack(2, 5), top('S', "-", "-")]);
    assert_eq!(first, second);
    // The state after the second add is the state after the first: a cancel again
    // reports the same change.
    assert_eq!(books.cancel_order(CancelOrder::new(2, 5)), cancel);
}
