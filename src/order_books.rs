//! The registry of books, one per symbol, in order of the symbols' first appearance.
use vstd::prelude::*;
use crate::order::{CancelOrder, NewOrder};
use crate::order_book::{
    add_events, add_state, book_wf, cancel_events, cancel_state, empty_book, BookView, OrderBook,
};
use crate::order_result::{views_of, OrderResult, ResultView};

verus! {

/// Mathematical state of the registry: its books in order of creation.
pub struct RegistryView {
    pub books: Seq<BookView>,
    pub trading_enabled: bool,
}

/// Index of the first book at or after `i` whose symbol is `symbol`.
pub open spec fn find_book(books: Seq<BookView>, symbol: Seq<char>, i: int) -> Option<int>
    decreases books.len() - i,
{
    if i < 0 || i >= books.len() {
        None
    } else if books[i].symbol == symbol {
        Some(i)
    } else {
        find_book(books, symbol, i + 1)
    }
}

/// Every book is well formed and shares the registry's trading flag; no two books share
/// a symbol.
pub open spec fn registry_wf(r: RegistryView) -> bool {
    &&& forall|k: int| 0 <= k < r.books.len() ==> book_wf(#[trigger] r.books[k])
    &&& forall|k: int| 0 <= k < r.books.len() ==> (#[trigger] r.books[k]).trading_enabled == r.trading_enabled
    &&& forall|j: int, k: int| 0 <= j < k < r.books.len() ==> (#[trigger] r.books[j]).symbol != (#[trigger] r.books[k]).symbol
}

/// A registry with no book.
pub open spec fn fresh_registry(trading_enabled: bool) -> RegistryView {
    RegistryView { books: seq![], trading_enabled }
}

/// The book that a new order goes to: the one of its symbol, or a fresh one.
pub open spec fn target_book(r: RegistryView, o: NewOrder) -> BookView {
    match find_book(r.books, o.symbol@, 0) {
        Some(k) => r.books[k],
        None => empty_book(o.symbol@, r.trading_enabled),
    }
}

/// The registry after new order `o`: its symbol's book steps, created first if absent.
pub open spec fn registry_add_state(r: RegistryView, o: NewOrder) -> RegistryView {
    match find_book(r.books, o.symbol@, 0) {
        Some(k) => RegistryView { books: r.books.update(k, add_state(r.books[k], o)), ..r },
        None => RegistryView { books: r.books.push(add_state(empty_book(o.symbol@, r.trading_enabled), o)), ..r },
    }
}

/// The events of the registry for new order `o`: those of its symbol's book.
pub open spec fn registry_add_events(r: RegistryView, o: NewOrder) -> Seq<ResultView> {
    add_events(target_book(r, o), o)
}

/// The cancel events of a sequence of books, in order.
pub open spec fn fanout_events(books: Seq<BookView>, c: CancelOrder) -> Seq<ResultView>
    decreases books.len(),
{
    if books.len() == 0 {
        seq![]
    } else {
        fanout_events(books.drop_last(), c) + cancel_events(books.last(), c)
    }
}

/// The registry after a cancel: every book has cancelled.
pub open spec fn registry_cancel_state(r: RegistryView, c: CancelOrder) -> RegistryView {
    RegistryView { books: r.books.map_values(|b: BookView| cancel_state(b, c)), ..r }
}

/// The events of the registry for a cancel: an acknowledgement, then each book's cancel
/// events in registry order.
pub open spec fn registry_cancel_events(r: RegistryView, c: CancelOrder) -> Seq<ResultView> {
    seq![ResultView::Acknowledgement { user: c.user, user_order_id: c.user_order_id }] + fanout_events(r.books, c)
}

/// The registry after a flush: no book is left.
pub open spec fn flushed(r: RegistryView) -> RegistryView {
    RegistryView { books: seq![], ..r }
}

/// The views of a vector of books.
pub open spec fn books_view(v: Seq<OrderBook>) -> Seq<BookView> {
    v.map_values(|b: OrderBook| b@)
}

/// All order books, one per symbol.
pub struct OrderBooks {
    all_orders: Vec<OrderBook>,
    trading_enabled: bool,
}

impl View for OrderBooks {
    type V = RegistryView;

    closed spec fn view(&self) -> RegistryView {
        RegistryView { books: books_view(self.all_orders@), trading_enabled: self.trading_enabled }
    }
}

impl OrderBooks {
    pub open spec fn well_formed(&self) -> bool {
        registry_wf(self@)
    }

    pub fn new(trading_enabled: bool) -> (r: OrderBooks)
        ensures
            r.well_formed(),
            r@ == fresh_registry(trading_enabled),
    {
        let r = OrderBooks { all_orders: Vec::new(), trading_enabled };
        assert(r@.books =~= Seq::<BookView>::empty());
        r
    }

    /// Index of the book of `symbol`, if there is one.
    fn find_symbol(&self, symbol: &String) -> (r: Option<usize>)
        ensures
            match r {
                Some(k) => k < self@.books.len() && find_book(self@.books, symbol@, 0) == Some(k as int),
                None => find_book(self@.books, symbol@, 0) is None && forall|k: int|
                    0 <= k < self@.books.len() ==> (#[trigger] self@.books[k]).symbol != symbol@,
            },
    {
        let mut i: usize = 0;
        while i < self.all_orders.len()
            invariant
                0 <= i <= self@.books.len(),
                self@.books.len() == self.all_orders@.len(),
                find_book(self@.books, symbol@, 0) == find_book(self@.books, symbol@, i as int),
                forall|k: int| 0 <= k < i ==> (#[trigger] self@.books[k]).symbol != symbol@,
            decreases self@.books.len() - i,
        {
            assert(self@.books[i as int] == self.all_orders@[i as int]@);
            if *self.all_orders[i].symbol() == *symbol {
                return Some(i);
            }
            i += 1;
        }
        None
    }

    /// Routes a new order (side `B` or `S`, non-zero quantity) to the book of its symbol,
    /// creating that book first if needed, and returns that book's events.
    pub fn add_order(&mut self, new_order: NewOrder) -> (r: Vec<OrderResult>)
        requires
            old(self).well_formed(),
            new_order.side == 'B' || new_order.side == 'S',
            new_order.qty > 0,
        ensures
            final(self).well_formed(),
            final(self)@ == registry_add_state(old(self)@, new_order),
            views_of(r@) == registry_add_events(old(self)@, new_order),
    {
        let ghost r0 = self@;
        match self.find_symbol(&new_order.symbol) {
            Some(k) => {
                assert(self@.books[k as int] == self.all_orders@[k as int]@);
                let ghost old_books = self@.books;
                let mut book = self.all_orders.remove(k);
                let results = book.add_order(new_order);
                let ghost bv = book@;
                self.all_orders.insert(k, book);
                assert(self@.books =~= old_books.update(k as int, bv));
                proof {
                    let r1 = registry_add_state(r0, new_order);
                    assert(self@.books =~= r1.books);
                    assert forall|j: int, m: int| 0 <= j < m < r1.books.len() implies (#[trigger] r1.books[j]).symbol
                        != (#[trigger] r1.books[m]).symbol by {
                        assert(r1.books[j].symbol == r0.books[j].symbol);
                        assert(r1.books[m].symbol == r0.books[m].symbol);
                    }
                }
                results
            },
            None => {
                let mut book = OrderBook::new(new_order.symbol.as_str(), self.trading_enabled);
                let results = book.add_order(new_order);
                let ghost old_books = self@.books;
                let ghost bv = book@;
                self.all_orders.push(book);
                assert(self@.books =~= old_books.push(bv));
                proof {
                    let r1 = registry_add_state(r0, new_order);
                    assert(self@.books =~= r1.books);
                }
                results
            },
        }
    }

    /// Acknowledges the cancel, then cancels in every book in registry order, appending each
    /// book's events.
    pub fn cancel_order(&mut self, cancel_order: CancelOrder) -> (r: Vec<OrderResult>)
        requires
            old(self).well_formed(),
        ensures
            final(self).well_formed(),
            final(self)@ == registry_cancel_state(old(self)@, cancel_order),
            views_of(r@) == registry_cancel_events(old(self)@, cancel_order),
    {
        let ghost r0 = self@;
        let mut order_results: Vec<OrderResult> = Vec::new();
        order_results.push(
            OrderResult::Acknowledgement { user: cancel_order.user, user_order_id: cancel_order.user_order_id },
        );
        let mut i: usize = 0;
        while i < self.all_orders.len()
            invariant
                0 <= i <= r0.books.len(),
                self@.books.len() == r0.books.len(),
                self.trading_enabled == r0.trading_enabled,
                forall|k: int| 0 <= k < i ==> #[trigger] self@.books[k] == cancel_state(r0.books[k], cancel_order),
                forall|k: int| i <= k < r0.books.len() ==> #[trigger] self@.books[k] == r0.books[k],
                forall|k: int| 0 <= k < r0.books.len() ==> book_wf(#[trigger] self@.books[k]),
                registry_wf(r0),
                views_of(order_results@) == seq![
                    ResultView::Acknowledgement { user: cancel_order.user, user_order_id: cancel_order.user_order_id },
                ] + fanout_events(r0.books.take(i as int), cancel_order),
            decreases r0.books.len() - i,
        {
            assert(self@.books[i as int] == self.all_orders@[i as int]@);
            let ghost old_books = self@.books;
            let mut book = self.all_orders.remove(i);
            let mut results = book.cancel_order(&cancel_order);
            let ghost bv = book@;
            self.all_orders.insert(i, book);
            assert(self@.books =~= old_books.update(i as int, bv));
            let ghost before = views_of(order_results@);
            order_results.append(&mut results);
            proof {
                assert(r0.books.take(i + 1).drop_last() =~= r0.books.take(i as int));
                assert(views_of(order_results@) =~= before + cancel_events(r0.books[i as int], cancel_order));
            }
            i += 1;
        }
        proof {
            assert(r0.books.take(i as int) =~= r0.books);
            let r1 = registry_cancel_state(r0, cancel_order);
            assert(self@.books =~= r1.books);
        }
        order_results
    }

    /// Drops every book.
    pub fn flush(&mut self)
        requires
            old(self).well_formed(),
        ensures
            final(self).well_formed(),
            final(self)@ == flushed(old(self)@),
    {
        self.all_orders.clear();
        assert(self@.books =~= flushed(old(self)@).books);
    }
}

} // verus!
