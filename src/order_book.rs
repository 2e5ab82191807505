//! The book of one symbol: a buy side and a sell side, with crossing detection, matching,
//! cancellation and top-of-book change detection.
use vstd::prelude::*;
use vstd::string::StringExecFns;
use crate::book_side::{
    lemma_insert_ends, lemma_remove_ends, lemma_side_cancel_wf, price_at, scan_down, scan_up, side_cancel,
    side_insert, side_remove, side_wf, tags_at_most, top_of, BookSide,
};
use crate::order::{CancelOrder, ExistingOrder, NewOrder};
use crate::order_result::{decimal, decimal_text, views_of, OrderResult, ResultView};

verus! {

/// Summary of one side: its best price and the aggregate quantity at that price, both
/// absent when the side is empty.
#[derive(Clone, Copy, Debug, PartialEq, Eq, Structural)]
pub struct TopOfBook {
    pub side: char,
    pub price: Option<u64>,
    pub total_quantity: Option<u64>,
}

/// Text of an optional number: its decimal digits, or `-` when absent.
pub open spec fn optional_text(v: Option<u64>) -> Seq<char> {
    match v {
        Some(n) => decimal(n as nat),
        None => seq!['-'],
    }
}

/// The top-of-book change event that announces snapshot `t`.
pub open spec fn change_event(t: TopOfBook) -> ResultView {
    ResultView::TopOfBookChange {
        side: t.side,
        price: optional_text(t.price),
        total_quantity: optional_text(t.total_quantity),
    }
}

/// The events announcing a move of a side's top from `before` to `after`: one change
/// event exactly when the two snapshots differ.
pub open spec fn top_change(before: TopOfBook, after: TopOfBook) -> Seq<ResultView> {
    if before == after {
        seq![]
    } else {
        seq![change_event(after)]
    }
}

fn optional_string(v: Option<u64>) -> (r: String)
    ensures
        r@ == optional_text(v),
{
    match v {
        Some(n) => decimal_text(n),
        None => {
            let r = String::from_str("-");
            proof {
                reveal_strlit("-");
            }
            r
        },
    }
}

impl TopOfBook {
    pub fn new(side: char, price: Option<u64>, total_quantity: Option<u64>) -> (r: TopOfBook)
        ensures
            r == (TopOfBook { side, price, total_quantity }),
    {
        TopOfBook { side, price, total_quantity }
    }

    /// The change event that announces this snapshot.
    pub fn to_order_result(&self) -> (r: OrderResult)
        ensures
            r@ == change_event(*self),
    {
        OrderResult::TopOfBookChange {
            side: self.side,
            price: optional_string(self.price),
            total_quantity: optional_string(self.total_quantity),
        }
    }
}

/// Mathematical state of a book.
pub struct BookView {
    pub symbol: Seq<char>,
    pub buys: Seq<Seq<ExistingOrder>>,
    pub sells: Seq<Seq<ExistingOrder>>,
    pub trading_enabled: bool,
    pub next_arrival: u64,
}

/// A book with no resting order.
pub open spec fn empty_book(symbol: Seq<char>, trading_enabled: bool) -> BookView {
    BookView { symbol, buys: seq![], sells: seq![], trading_enabled, next_arrival: 0 }
}

/// Both sides are well formed, no arrival tag exceeds the arrival counter, and the book is
/// not crossed: when both sides hold orders, the highest buy price is below the lowest
/// sell price.
pub open spec fn book_wf(b: BookView) -> bool {
    &&& side_wf(b.buys)
    &&& side_wf(b.sells)
    &&& tags_at_most(b.buys, b.next_arrival)
    &&& tags_at_most(b.sells, b.next_arrival)
    &&& b.buys.len() > 0 && b.sells.len() > 0 ==> price_at(b.buys, b.buys.len() - 1) < price_at(
        b.sells,
        0,
    )
}

/// A new order crosses the book: a buy priced at or above the lowest sell, or a sell
/// priced at or below the highest buy. An order of any other side crosses nothing.
pub open spec fn crosses(b: BookView, o: NewOrder) -> bool {
    if o.side == 'B' {
        b.sells.len() > 0 && o.price >= price_at(b.sells, 0)
    } else if o.side == 'S' {
        b.buys.len() > 0 && o.price <= price_at(b.buys, b.buys.len() - 1)
    } else {
        false
    }
}

/// Where a crossing order matches on the opposite side, if anywhere.
pub open spec fn match_position(b: BookView, o: NewOrder) -> Option<(int, int)> {
    if o.side == 'B' {
        scan_up(b.sells, o.price, o.qty, 0)
    } else {
        scan_down(b.buys, o.price, o.qty, b.buys.len() as int)
    }
}

/// The resting order that an accepted request becomes, with arrival tag `tag`.
pub open spec fn stamped(o: NewOrder, tag: u64) -> ExistingOrder {
    ExistingOrder {
        user: o.user,
        price: o.price,
        qty: o.qty,
        user_order_id: o.user_order_id,
        time_received: tag,
    }
}

/// The arrival counter after one acceptance, saturating at `u64::MAX`.
pub open spec fn next_tag(n: u64) -> u64 {
    if n == u64::MAX {
        n
    } else {
        (n + 1) as u64
    }
}

/// The trade between incoming order `o` and resting order `m`, at the resting price and
/// quantity.
pub open spec fn trade_event(o: NewOrder, m: ExistingOrder) -> ResultView {
    if o.side == 'B' {
        ResultView::Trade {
            user_buy: o.user,
            user_order_id_buy: o.user_order_id,
            user_sell: m.user,
            user_order_id_sell: m.user_order_id,
            price: m.price,
            qty: m.qty,
        }
    } else {
        ResultView::Trade {
            user_buy: m.user,
            user_order_id_buy: m.user_order_id,
            user_sell: o.user,
            user_order_id_sell: o.user_order_id,
            price: m.price,
            qty: m.qty,
        }
    }
}

/// The opposite side's letter.
pub open spec fn opposite(side: char) -> char {
    if side == 'B' {
        'S'
    } else {
        'B'
    }
}

/// The state of a book after new order `o` (side `B` or `S`).
pub open spec fn add_state(b: BookView, o: NewOrder) -> BookView {
    if crosses(b, o) {
        if !b.trading_enabled {
            b
        } else {
            match match_position(b, o) {
                None => b,
                Some((i, j)) => if o.side == 'B' {
                    BookView { sells: side_remove(b.sells, i, j), ..b }
                } else {
                    BookView { buys: side_remove(b.buys, i, j), ..b }
                },
            }
        }
    } else {
        let e = stamped(o, b.next_arrival);
        if o.side == 'B' {
            BookView { buys: side_insert(b.buys, e), next_arrival: next_tag(b.next_arrival), ..b }
        } else {
            BookView { sells: side_insert(b.sells, e), next_arrival: next_tag(b.next_arrival), ..b }
        }
    }
}

/// The side of a book named by its letter.
pub open spec fn side_of(b: BookView, side: char) -> Seq<Seq<ExistingOrder>> {
    if side == 'B' {
        b.buys
    } else {
        b.sells
    }
}

/// The events of a book for new order `o` (side `B` or `S`): a rejection when it crosses
/// with trading disabled; else an acknowledgement, then the trade if one is made, then a
/// top-of-book change of the side that moved, if its snapshot changed.
pub open spec fn add_events(b: BookView, o: NewOrder) -> Seq<ResultView> {
    let ack = ResultView::Acknowledgement { user: o.user, user_order_id: o.user_order_id };
    if crosses(b, o) {
        if !b.trading_enabled {
            seq![ResultView::Rejection { user: o.user, user_order_id: o.user_order_id }]
        } else {
            let other = opposite(o.side);
            match match_position(b, o) {
                None => seq![ack],
                Some((i, j)) => seq![ack, trade_event(o, side_of(b, other)[i][j])] + top_change(
                    top_of(side_of(b, other), other),
                    top_of(side_of(add_state(b, o), other), other),
                ),
            }
        }
    } else {
        seq![ack] + top_change(
            top_of(side_of(b, o.side), o.side),
            top_of(side_of(add_state(b, o), o.side), o.side),
        )
    }
}

/// The state of a book after a cancel of `(user, user_order_id)`.
pub open spec fn cancel_state(b: BookView, c: CancelOrder) -> BookView {
    BookView {
        buys: side_cancel(b.buys, c.user, c.user_order_id),
        sells: side_cancel(b.sells, c.user, c.user_order_id),
        ..b
    }
}

/// The events of a book for a cancel: the buy side's top-of-book change, then the sell
/// side's, each only if that snapshot changed.
pub open spec fn cancel_events(b: BookView, c: CancelOrder) -> Seq<ResultView> {
    top_change(top_of(b.buys, 'B'), top_of(cancel_state(b, c).buys, 'B')) + top_change(
        top_of(b.sells, 'S'),
        top_of(cancel_state(b, c).sells, 'S'),
    )
}

/// Maintains a buy and a sell side for one symbol.
pub struct OrderBook {
    symbol: String,
    buy_orders: BookSide,
    sell_orders: BookSide,
    trading_enabled: bool,
    next_arrival: u64,
}

impl View for OrderBook {
    type V = BookView;

    closed spec fn view(&self) -> BookView {
        BookView {
            symbol: self.symbol@,
            buys: self.buy_orders@,
            sells: self.sell_orders@,
            trading_enabled: self.trading_enabled,
            next_arrival: self.next_arrival,
        }
    }
}

/// Position of a resting order: its side, the index of its price level, and its index
/// in that level.
struct OrderBookLocation {
    side: char,
    level: usize,
    index: usize,
}

impl OrderBookLocation {
    fn new(side: char, level: usize, index: usize) -> (r: OrderBookLocation)
        ensures
            r.side == side,
            r.level == level,
            r.index == index,
    {
        OrderBookLocation { side, level, index }
    }
}

impl OrderBook {
    /// Both sides are well formed and the book is not crossed.
    pub open spec fn well_formed(&self) -> bool {
        book_wf(self@)
    }

    pub fn new(symbol: &str, trading_enabled: bool) -> (r: OrderBook)
        ensures
            r.well_formed(),
            r@ == empty_book(symbol@, trading_enabled),
    {
        let r = OrderBook {
            symbol: String::from_str(symbol),
            buy_orders: BookSide::new(),
            sell_orders: BookSide::new(),
            trading_enabled,
            next_arrival: 0,
        };
        assert(r@ =~= empty_book(symbol@, trading_enabled));
        r
    }

    /// The symbol this book is for.
    pub fn symbol(&self) -> (r: &String)
        ensures
            r@ == self@.symbol,
    {
        &self.symbol
    }

    /// Whether a crossing order is matched (rather than rejected).
    pub fn trading_enabled(&self) -> (r: bool)
        ensures
            r == self@.trading_enabled,
    {
        self.trading_enabled
    }

    /// Whether a new order crosses the book.
    fn crosses_book(&self, new_order: &NewOrder) -> (r: bool)
        requires
            self.well_formed(),
        ensures
            r == crosses(self@, *new_order),
    {
        if new_order.side == 'B' && self.is_above_lowest_sell_price(new_order.price) {
            true
        } else if new_order.side == 'S' && self.is_below_highest_buy_price(new_order.price) {
            true
        } else {
            false
        }
    }

    /// Whether `buy_price` reaches the lowest sell price.
    fn is_above_lowest_sell_price(&self, buy_price: u64) -> (r: bool)
        requires
            self.well_formed(),
        ensures
            r == (self@.sells.len() > 0 && buy_price >= price_at(self@.sells, 0)),
    {
        if self.sell_orders.is_empty() {
            false
        } else {
            buy_price >= self.sell_orders.lowest_price()
        }
    }

    /// Whether `sell_price` reaches down to the highest buy price.
    fn is_below_highest_buy_price(&self, sell_price: u64) -> (r: bool)
        requires
            self.well_formed(),
        ensures
            r == (self@.buys.len() > 0 && sell_price <= price_at(self@.buys, self@.buys.len() - 1)),
    {
        if self.buy_orders.is_empty() {
            false
        } else {
            sell_price <= self.buy_orders.highest_price()
        }
    }

    /// Snapshot of the buy side's top: highest price and the quantity there.
    fn get_top_of_buy_book(&self) -> (r: TopOfBook)
        requires
            self.well_formed(),
        ensures
            r == top_of(self@.buys, 'B'),
    {
        self.buy_orders.top('B')
    }

    /// Snapshot of the sell side's top: lowest price and the quantity there.
    fn get_top_of_sell_book(&self) -> (r: TopOfBook)
        requires
            self.well_formed(),
        ensures
            r == top_of(self@.sells, 'S'),
    {
        self.sell_orders.top('S')
    }

    /// Accepts a non-crossing order: stamps its arrival tag and rests it on its side.
    fn add_resting_order(&mut self, new_order: NewOrder) -> (r: Vec<OrderResult>)
        requires
            old(self).well_formed(),
            new_order.side == 'B' || new_order.side == 'S',
            new_order.qty > 0,
            !crosses(old(self)@, new_order),
        ensures
            final(self).well_formed(),
            final(self)@ == add_state(old(self)@, new_order),
            views_of(r@) == add_events(old(self)@, new_order),
    {
        let ghost b = self@;
        let side = new_order.side;
        let current_top = if side == 'B' {
            self.get_top_of_buy_book()
        } else {
            self.get_top_of_sell_book()
        };
        let mut order_results: Vec<OrderResult> = Vec::new();
        order_results.push(
            OrderResult::Acknowledgement { user: new_order.user, user_order_id: new_order.user_order_id },
        );
        let mut new_order = new_order;
        new_order.time_received = self.next_arrival;
        self.next_arrival = self.next_arrival.saturating_add(1);
        let existing_order = ExistingOrder::new(new_order);
        proof {
            lemma_insert_ends(b.buys, existing_order);
            lemma_insert_ends(b.sells, existing_order);
        }
        if side == 'B' {
            self.buy_orders.insert(existing_order);
        } else {
            self.sell_orders.insert(existing_order);
        }
        assert(self@ == add_state(b, new_order));
        let new_top = if side == 'B' {
            self.get_top_of_buy_book()
        } else {
            self.get_top_of_sell_book()
        };
        if new_top != current_top {
            order_results.push(new_top.to_order_result());
        }
        assert(views_of(order_results@) =~= add_events(b, new_order));
        order_results
    }

    /// Adds an order to its side. An order that crosses the book is rejected when trading
    /// is disabled; when it is enabled, it is matched against one resting order of equal
    /// quantity, if any, and is never rested.
    pub fn add_order(&mut self, new_order: NewOrder) -> (r: Vec<OrderResult>)
        requires
            old(self).well_formed(),
            new_order.side == 'B' || new_order.side == 'S',
            new_order.qty > 0,
        ensures
            final(self).well_formed(),
            final(self)@ == add_state(old(self)@, new_order),
            views_of(r@) == add_events(old(self)@, new_order),
    {
        if self.crosses_book(&new_order) {
            if self.trading_enabled {
                self.attempt_order_match(new_order)
            } else {
                let r = vec![
                    OrderResult::Rejection { user: new_order.user, user_order_id: new_order.user_order_id },
                ];
                assert(views_of(r@) =~= add_events(self@, new_order));
                r
            }
        } else {
            self.add_resting_order(new_order)
        }
    }

    /// Where a crossing order matches on the opposite side, if anywhere.
    fn match_order(&self, new_order: &NewOrder) -> (r: Option<OrderBookLocation>)
        requires
            self.well_formed(),
        ensures
            match r {
                Some(loc) => loc.side == opposite(new_order.side) && match_position(self@, *new_order)
                    == Some((loc.level as int, loc.index as int)) && loc.level < side_of(
                    self@,
                    loc.side,
                ).len() && loc.index < side_of(self@, loc.side)[loc.level as int].len(),
                None => match_position(self@, *new_order) is None,
            },
    {
        if new_order.side == 'B' {
            match self.sell_orders.find_up(new_order.price, new_order.qty) {
                Some((i, j)) => Some(OrderBookLocation::new('S', i, j)),
                None => None,
            }
        } else {
            match self.buy_orders.find_down(new_order.price, new_order.qty) {
                Some((i, j)) => Some(OrderBookLocation::new('B', i, j)),
                None => None,
            }
        }
    }

    /// Removes and returns the order at `loc`, dropping its level if it empties.
    fn remove_order(&mut self, loc: OrderBookLocation) -> (r: ExistingOrder)
        requires
            old(self).well_formed(),
            loc.side == 'B' || loc.side == 'S',
            loc.level < side_of(old(self)@, loc.side).len(),
            loc.index < side_of(old(self)@, loc.side)[loc.level as int].len(),
        ensures
            final(self).well_formed(),
            r == side_of(old(self)@, loc.side)[loc.level as int][loc.index as int],
            final(self)@ == if loc.side == 'B' {
                BookView { buys: side_remove(old(self)@.buys, loc.level as int, loc.index as int), ..old(self)@ }
            } else {
                BookView { sells: side_remove(old(self)@.sells, loc.level as int, loc.index as int), ..old(self)@ }
            },
    {
        proof {
            if loc.side == 'B' {
                lemma_remove_ends(self@.buys, loc.level as int, loc.index as int);
            } else {
                lemma_remove_ends(self@.sells, loc.level as int, loc.index as int);
            }
        }
        if loc.side == 'B' {
            self.buy_orders.remove_at(loc.level, loc.index)
        } else {
            self.sell_orders.remove_at(loc.level, loc.index)
        }
    }

    /// Handles a crossing order with trading enabled: acknowledges it, then trades it
    /// against the first resting order of equal quantity in match-favourable order.
    fn attempt_order_match(&mut self, new_order: NewOrder) -> (r: Vec<OrderResult>)
        requires
            old(self).well_formed(),
            old(self)@.trading_enabled,
            new_order.side == 'B' || new_order.side == 'S',
            new_order.qty > 0,
            crosses(old(self)@, new_order),
        ensures
            final(self).well_formed(),
            final(self)@ == add_state(old(self)@, new_order),
            views_of(r@) == add_events(old(self)@, new_order),
    {
        let ghost b = self@;
        let mut order_results: Vec<OrderResult> = Vec::new();
        order_results.push(
            OrderResult::Acknowledgement { user: new_order.user, user_order_id: new_order.user_order_id },
        );
        let other = if new_order.side == 'B' {
            'S'
        } else {
            'B'
        };
        let current_top = if other == 'B' {
            self.get_top_of_buy_book()
        } else {
            self.get_top_of_sell_book()
        };
        if let Some(loc) = self.match_order(&new_order) {
            let existing_order = self.remove_order(loc);
            assert(self@ == add_state(b, new_order));
            if new_order.side == 'B' {
                order_results.push(
                    OrderResult::Trade {
                        user_buy: new_order.user,
                        user_order_id_buy: new_order.user_order_id,
                        user_sell: existing_order.user,
                        user_order_id_sell: existing_order.user_order_id,
                        price: existing_order.price,
                        qty: existing_order.qty,
                    },
                );
            } else {
                order_results.push(
                    OrderResult::Trade {
                        user_buy: existing_order.user,
                        user_order_id_buy: existing_order.user_order_id,
                        user_sell: new_order.user,
                        user_order_id_sell: new_order.user_order_id,
                        price: existing_order.price,
                        qty: existing_order.qty,
                    },
                );
            }
            let new_top = if other == 'B' {
                self.get_top_of_buy_book()
            } else {
                self.get_top_of_sell_book()
            };
            if new_top != current_top {
                order_results.push(new_top.to_order_result());
            }
        }
        assert(views_of(order_results@) =~= add_events(b, new_order));
        order_results
    }

    /// Removes every resting order that carries the cancel's id, from both sides. Emits the
    /// buy side's top-of-book change, then the sell side's, each only if it changed; no
    /// acknowledgement is emitted here.
    pub fn cancel_order(&mut self, cancel_order: &CancelOrder) -> (r: Vec<OrderResult>)
        requires
            old(self).well_formed(),
        ensures
            final(self).well_formed(),
            final(self)@ == cancel_state(old(self)@, *cancel_order),
            views_of(r@) == cancel_events(old(self)@, *cancel_order),
    {
        let ghost b = self@;
        let mut order_results: Vec<OrderResult> = Vec::new();
        proof {
            lemma_side_cancel_wf(b.buys, cancel_order.user, cancel_order.user_order_id, b.next_arrival);
            lemma_side_cancel_wf(b.sells, cancel_order.user, cancel_order.user_order_id, b.next_arrival);
        }

        let current_top = self.get_top_of_buy_book();
        self.buy_orders.cancel(cancel_order.user, cancel_order.user_order_id);
        let new_top = self.buy_orders.top('B');
        if new_top != current_top {
            order_results.push(new_top.to_order_result());
        }

        let current_top = self.sell_orders.top('S');
        self.sell_orders.cancel(cancel_order.user, cancel_order.user_order_id);
        assert(self@ == cancel_state(b, *cancel_order));
        let new_top = self.get_top_of_sell_book();
        if new_top != current_top {
            order_results.push(new_top.to_order_result());
        }
        assert(views_of(order_results@) =~= cancel_events(b, *cancel_order));
        order_results
    }
}

} // verus!
