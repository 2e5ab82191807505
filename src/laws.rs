//! Laws of the engine, stated over the mathematical model of the registry and its books.
use vstd::prelude::*;
use crate::book_side::{
    has_id,
    lemma_insert_then_cancel, lemma_insert_top_ignores_tag, lemma_level_total_remove,
    lemma_lower_bound_props, lemma_scan_down_valid, lemma_scan_up_valid, lemma_side_cancel_clean,
    lemma_side_cancel_keeps, lemma_insert_untagged, level_total, levels_non_empty, untagged, price_at, side_insert, side_lacks_id, side_remove,
    side_wf, top_of,
};
use crate::order::{CancelOrder, ExistingOrder, NewOrder};
use crate::order_book::{
    add_events, add_state, book_wf, cancel_events, cancel_state, change_event, crosses, empty_book,
    match_position, opposite, side_of, stamped, top_change, BookView, TopOfBook,
};
use crate::order_books::{
    fanout_events, find_book, flushed, fresh_registry, registry_add_events, registry_add_state,
    registry_cancel_events, registry_cancel_state, registry_wf, target_book, RegistryView,
};
use crate::order_result::ResultView;

verus! {

/// Every price level of every book holds at least one order.
pub proof fn price_levels_are_non_empty(r: RegistryView)
    requires
        registry_wf(r),
    ensures
        forall|k: int, i: int|
            0 <= k < r.books.len() && 0 <= i < r.books[k].buys.len() ==> (#[trigger] r.books[k].buys[i]).len() > 0,
        forall|k: int, i: int|
            0 <= k < r.books.len() && 0 <= i < r.books[k].sells.len() ==> (#[trigger] r.books[k].sells[i]).len()
                > 0,
{
    assert forall|k: int, i: int| 0 <= k < r.books.len() && 0 <= i < r.books[k].buys.len() implies (
    #[trigger] r.books[k].buys[i]).len() > 0 by {
        assert(book_wf(r.books[k]));
    }
    assert forall|k: int, i: int| 0 <= k < r.books.len() && 0 <= i < r.books[k].sells.len() implies (
    #[trigger] r.books[k].sells[i]).len() > 0 by {
        assert(book_wf(r.books[k]));
    }
}

/// No book is crossed: where both sides hold orders, the highest buy price is below the
/// lowest sell price. (Crossing orders are rejected or matched, never rested.)
pub proof fn books_are_never_crossed(r: RegistryView)
    requires
        registry_wf(r),
    ensures
        forall|k: int|
            0 <= k < r.books.len() && (#[trigger] r.books[k]).buys.len() > 0 && r.books[k].sells.len() > 0
                ==> price_at(r.books[k].buys, r.books[k].buys.len() - 1) < price_at(r.books[k].sells, 0),
{
    assert forall|k: int|
        0 <= k < r.books.len() && (#[trigger] r.books[k]).buys.len() > 0 && r.books[k].sells.len() > 0 implies price_at(
        r.books[k].buys,
        r.books[k].buys.len() - 1,
    ) < price_at(r.books[k].sells, 0) by {
        assert(book_wf(r.books[k]));
    }
}

/// No two orders of the side carry the same id.
pub open spec fn side_ids_unique(s: Seq<Seq<ExistingOrder>>) -> bool {
    forall|i1: int, j1: int, i2: int, j2: int|
        0 <= i1 < s.len() && 0 <= j1 < s[i1].len() && 0 <= i2 < s.len() && 0 <= j2 < s[i2].len() && (i1 != i2
            || j1 != j2) ==> !has_id(#[trigger] s[i1][j1], (#[trigger] s[i2][j2]).user, s[i2][j2].user_order_id)
}

/// A trade takes the matched resting order out of its level: one occurrence of it leaves
/// the level, the level's aggregate quantity drops by exactly its quantity, and a level
/// left empty is dropped, so no level at its price remains. The other levels are kept.
/// Where no two orders of that side share an id, no order with the matched order's id
/// remains.
pub proof fn match_removes_matched_order(b: BookView, o: NewOrder)
    requires
        book_wf(b),
        o.side == 'B' || o.side == 'S',
        b.trading_enabled,
        crosses(b, o),
        match_position(b, o) is Some,
    ensures
        ({
            let (i, j) = match_position(b, o)->0;
            let other = opposite(o.side);
            let before = side_of(b, other);
            let after = side_of(add_state(b, o), other);
            let m = before[i][j];
            &&& 0 <= i < before.len() && 0 <= j < before[i].len()
            &&& m.qty == o.qty
            &&& before[i].len() > 1 ==> after.len() == before.len() && after[i].to_multiset()
                == before[i].to_multiset().remove(m) && level_total(after[i]) + m.qty == level_total(before[i])
                && forall|x: int| 0 <= x < after.len() && x != i ==> after[x] == before[x]
            &&& before[i].len() == 1 ==> level_total(before[i]) == m.qty && after == before.remove(i)
                && forall|x: int| 0 <= x < after.len() ==> price_at(after, x) != m.price
            &&& side_ids_unique(before) ==> side_lacks_id(after, m.user, m.user_order_id)
        }),
{
    broadcast use vstd::seq_lib::group_to_multiset_ensures;

    let other = opposite(o.side);
    let before = side_of(b, other);
    if o.side == 'B' {
        lemma_scan_up_valid(b.sells, o.price, o.qty, 0);
    } else {
        lemma_scan_down_valid(b.buys, o.price, o.qty, b.buys.len() as int);
    }
    let (i, j) = match_position(b, o)->0;
    let m = before[i][j];
    let after = side_of(add_state(b, o), other);
    assert(after == side_remove(before, i, j));
    assert(side_wf(before));
    lemma_level_total_remove(before[i], j);
    if side_ids_unique(before) {
        assert forall|x: int, y: int| 0 <= x < after.len() && 0 <= y < after[x].len() implies !has_id(
            #[trigger] after[x][y],
            m.user,
            m.user_order_id,
        ) by {
            let l = before[i].remove(j);
            if l.len() == 0 {
                let x0 = if x < i { x } else { x + 1 };
                assert(after[x] == before[x0]);
                assert(x0 != i);
                assert(!has_id(before[x0][y], before[i][j].user, before[i][j].user_order_id));
            } else if x != i {
                assert(after[x] == before[x]);
                assert(!has_id(before[x][y], before[i][j].user, before[i][j].user_order_id));
            } else {
                let y0 = if y < j { y } else { y + 1 };
                assert(after[x][y] == before[i][y0]);
                assert(!has_id(before[i][y0], before[i][j].user, before[i][j].user_order_id));
            }
        }
    }
    if before[i].len() == 1 {
        assert(before[i].remove(j).len() == 0);
        assert(before[i].remove(j) =~= Seq::<ExistingOrder>::empty());
        assert(level_total(before[i].remove(j)) == 0);
        assert forall|x: int| 0 <= x < after.len() implies price_at(after, x) != m.price by {
            assert(crate::book_side::level_wf(before[i]));
            if x < i {
                assert(after[x] == before[x]);
                assert(before[x][0].price < before[i][0].price);
            } else {
                assert(after[x] == before[x + 1]);
                assert(before[i][0].price < before[x + 1][0].price);
            }
        }
    }
}

/// An add emits a top-of-book change exactly when the snapshot of the side it changed
/// (its own side when it rests, the opposite side when it crosses) differs afterwards;
/// that change comes last, and no change is emitted for the other side.
pub proof fn add_announces_top_iff_it_moved(b: BookView, o: NewOrder)
    requires
        book_wf(b),
        o.side == 'B' || o.side == 'S',
    ensures
        ({
            let s = if crosses(b, o) {
                opposite(o.side)
            } else {
                o.side
            };
            let t0 = top_of(side_of(b, s), s);
            let t1 = top_of(side_of(add_state(b, o), s), s);
            let ev = add_events(b, o);
            &&& (exists|k: int| 0 <= k < ev.len() && (#[trigger] ev[k]) is TopOfBookChange) <==> t0 != t1
            &&& t0 != t1 ==> ev.last() == change_event(t1)
            &&& forall|k: int| 0 <= k < ev.len() && (#[trigger] ev[k]) is TopOfBookChange ==> ev[k]->side == s
        }),
{
    let s = if crosses(b, o) {
        opposite(o.side)
    } else {
        o.side
    };
    let t0 = top_of(side_of(b, s), s);
    let t1 = top_of(side_of(add_state(b, o), s), s);
    let ev = add_events(b, o);
    if t0 != t1 {
        assert(ev[ev.len() - 1] is TopOfBookChange);
    } else {
        assert forall|k: int| 0 <= k < ev.len() implies !((#[trigger] ev[k]) is TopOfBookChange) by {}
    }
}

/// A cancel in a book emits a buy-side change exactly when the buy snapshot differs
/// afterwards, and a sell-side change exactly when the sell snapshot does, in that order.
pub proof fn cancel_announces_top_iff_it_moved(b: BookView, c: CancelOrder)
    ensures
        ({
            let a = cancel_state(b, c);
            let ev = cancel_events(b, c);
            let buy_moved = top_of(b.buys, 'B') != top_of(a.buys, 'B');
            let sell_moved = top_of(b.sells, 'S') != top_of(a.sells, 'S');
            &&& ev.len() == (if buy_moved { 1int } else { 0 }) + (if sell_moved { 1int } else { 0 })
            &&& buy_moved ==> ev[0] == change_event(top_of(a.buys, 'B'))
            &&& sell_moved ==> ev.last() == change_event(top_of(a.sells, 'S'))
        }),
{
}

/// A book whose levels hold orders, none carrying the cancel's id, is left as it is by
/// the cancel, and emits nothing.
proof fn cancel_of_absent_id_is_silent(b: BookView, c: CancelOrder)
    requires
        levels_non_empty(b.buys),
        levels_non_empty(b.sells),
        side_lacks_id(b.buys, c.user, c.user_order_id),
        side_lacks_id(b.sells, c.user, c.user_order_id),
    ensures
        cancel_state(b, c) == b,
        cancel_events(b, c) == Seq::<ResultView>::empty(),
{
    lemma_side_cancel_keeps(b.buys, c.user, c.user_order_id);
    lemma_side_cancel_keeps(b.sells, c.user, c.user_order_id);
    assert(cancel_events(b, c) =~= Seq::<ResultView>::empty());
}

/// Books that each emit nothing for a cancel emit nothing together.
proof fn fanout_of_silent_books(books: Seq<BookView>, c: CancelOrder)
    requires
        forall|k: int| 0 <= k < books.len() ==> cancel_events(#[trigger] books[k], c) == Seq::<ResultView>::empty(),
    ensures
        fanout_events(books, c) == Seq::<ResultView>::empty(),
    decreases books.len(),
{
    if books.len() > 0 {
        let t = books.drop_last();
        assert forall|k: int| 0 <= k < t.len() implies cancel_events(#[trigger] t[k], c) == Seq::<ResultView>::empty() by {
            assert(t[k] == books[k]);
        }
        fanout_of_silent_books(t, c);
        assert(cancel_events(books[books.len() - 1], c) == Seq::<ResultView>::empty());
        assert(fanout_events(books, c) =~= Seq::<ResultView>::empty());
    }
}

/// Cancelling twice is cancelling once: the second cancel leaves the registry as the
/// first left it and emits only its acknowledgement.
pub proof fn cancel_is_idempotent(r: RegistryView, c: CancelOrder)
    ensures
        registry_cancel_state(registry_cancel_state(r, c), c) == registry_cancel_state(r, c),
        registry_cancel_events(registry_cancel_state(r, c), c) == seq![
            ResultView::Acknowledgement { user: c.user, user_order_id: c.user_order_id },
        ],
{
    let r1 = registry_cancel_state(r, c);
    assert forall|k: int| 0 <= k < r1.books.len() implies cancel_state(#[trigger] r1.books[k], c) == r1.books[k]
        && cancel_events(r1.books[k], c) == Seq::<ResultView>::empty() by {
        lemma_side_cancel_clean(r.books[k].buys, c.user, c.user_order_id);
        lemma_side_cancel_clean(r.books[k].sells, c.user, c.user_order_id);
        cancel_of_absent_id_is_silent(r1.books[k], c);
    }
    assert(registry_cancel_state(r1, c).books =~= r1.books);
    fanout_of_silent_books(r1.books, c);
    assert(registry_cancel_events(r1, c) =~= seq![
        ResultView::Acknowledgement { user: c.user, user_order_id: c.user_order_id },
    ]);
}

/// After a flush the registry is as a fresh one with the same trading flag, and any new
/// order is acknowledged and announces its side's top: its price and quantity, where the
/// side was empty before.
pub proof fn flush_restores_initial_state(r: RegistryView, o: NewOrder)
    requires
        o.side == 'B' || o.side == 'S',
        o.qty > 0,
    ensures
        flushed(r) == fresh_registry(r.trading_enabled),
        registry_add_events(flushed(r), o) == seq![
            ResultView::Acknowledgement { user: o.user, user_order_id: o.user_order_id },
            change_event(TopOfBook { side: o.side, price: Some(o.price), total_quantity: Some(o.qty) }),
        ],
{
    let f = flushed(r);
    assert(f.books =~= fresh_registry(r.trading_enabled).books);
    let b = empty_book(o.symbol@, r.trading_enabled);
    assert(target_book(f, o) == b);
    let e = stamped(o, 0);
    let s: Seq<Seq<ExistingOrder>> = seq![];
    lemma_lower_bound_props(s, o.price);
    assert(side_insert(s, e) =~= seq![seq![e]]);
    assert(seq![e].drop_last() =~= Seq::<ExistingOrder>::empty());
    assert(level_total(Seq::<ExistingOrder>::empty()) == 0);
    assert(seq![e].last() == e);
    assert(level_total(seq![e]) == o.qty);
    assert(top_of(side_of(add_state(b, o), o.side), o.side) == TopOfBook {
        side: o.side,
        price: Some(o.price),
        total_quantity: Some(o.qty),
    });
    assert(registry_add_events(f, o) =~= seq![
        ResultView::Acknowledgement { user: o.user, user_order_id: o.user_order_id },
        change_event(TopOfBook { side: o.side, price: Some(o.price), total_quantity: Some(o.qty) }),
    ]);
}

/// A new order after a flush has the same effect and the same events as on a fresh
/// registry with the same trading flag.
pub proof fn flush_then_add_is_fresh_add(r: RegistryView, o: NewOrder)
    ensures
        registry_add_events(flushed(r), o) == registry_add_events(fresh_registry(r.trading_enabled), o),
        registry_add_state(flushed(r), o) == registry_add_state(fresh_registry(r.trading_enabled), o),
{
    assert(flushed(r) =~= fresh_registry(r.trading_enabled));
}

/// Books that agree on both sides and on the trading flag emit the same events for the
/// same new order (the arrival counter, the symbol and the tags do not show in events).
proof fn add_events_depend_on_sides(a: BookView, b: BookView, o: NewOrder)
    requires
        a.buys == b.buys,
        a.sells == b.sells,
        a.trading_enabled == b.trading_enabled,
        side_wf(a.buys),
        side_wf(a.sells),
    ensures
        add_events(a, o) == add_events(b, o),
{
    if !crosses(a, o) {
        if o.side == 'B' {
            lemma_insert_top_ignores_tag(a.buys, stamped(o, a.next_arrival), stamped(o, b.next_arrival), 'B');
        } else {
            lemma_insert_top_ignores_tag(a.sells, stamped(o, a.next_arrival), stamped(o, b.next_arrival), 'S');
        }
    }
}

/// What `find_book` finds: the first book of the symbol at or after `i`.
proof fn lemma_find_book_props(books: Seq<BookView>, symbol: Seq<char>, i: int)
    requires
        0 <= i,
    ensures
        match find_book(books, symbol, i) {
            Some(k) => i <= k < books.len() && books[k].symbol == symbol && forall|m: int|
                i <= m < k ==> (#[trigger] books[m]).symbol != symbol,
            None => forall|m: int| i <= m < books.len() ==> (#[trigger] books[m]).symbol != symbol,
        },
    decreases books.len() - i,
{
    if i < books.len() && books[i].symbol != symbol {
        lemma_find_book_props(books, symbol, i + 1);
    }
}

/// `find_book` reads the symbols alone.
proof fn lemma_find_book_by_symbols(a: Seq<BookView>, b: Seq<BookView>, symbol: Seq<char>, i: int)
    requires
        a.len() == b.len(),
        forall|k: int| 0 <= k < a.len() ==> (#[trigger] a[k]).symbol == b[k].symbol,
    ensures
        find_book(a, symbol, i) == find_book(b, symbol, i),
    decreases a.len() - i,
{
    if 0 <= i < a.len() && a[i].symbol != symbol {
        lemma_find_book_by_symbols(a, b, symbol, i + 1);
    }
}

/// A well-formed book's levels all hold orders.
proof fn lemma_book_levels_non_empty(b: BookView)
    requires
        book_wf(b),
    ensures
        levels_non_empty(b.buys),
        levels_non_empty(b.sells),
{
    assert forall|i: int| 0 <= i < b.buys.len() implies (#[trigger] b.buys[i]).len() > 0 by {
        assert(crate::book_side::level_wf(b.buys[i]));
    }
    assert forall|i: int| 0 <= i < b.sells.len() implies (#[trigger] b.sells[i]).len() > 0 by {
        assert(crate::book_side::level_wf(b.sells[i]));
    }
}

/// Where a new order lands in the registry: at index `k`, in its target book; every other
/// book stays as it was.
proof fn lemma_registry_add_at(r: RegistryView, o: NewOrder) -> (k: int)
    requires
        registry_wf(r),
    ensures
        0 <= k < registry_add_state(r, o).books.len(),
        registry_add_state(r, o).books[k] == add_state(target_book(r, o), o),
        book_wf(target_book(r, o)),
        target_book(r, o).symbol == o.symbol@,
        target_book(r, o).trading_enabled == r.trading_enabled,
        k < r.books.len() ==> target_book(r, o) == r.books[k] && registry_add_state(r, o).books.len()
            == r.books.len(),
        k >= r.books.len() ==> k == r.books.len() && registry_add_state(r, o).books.len() == r.books.len() + 1
            && target_book(r, o) == empty_book(o.symbol@, r.trading_enabled),
        forall|m: int|
            0 <= m < r.books.len() && m != k ==> (#[trigger] registry_add_state(r, o).books[m]) == r.books[m],
        registry_add_state(r, o).trading_enabled == r.trading_enabled,
{
    lemma_find_book_props(r.books, o.symbol@, 0);
    match find_book(r.books, o.symbol@, 0) {
        Some(k) => k,
        None => {
            let b = empty_book(o.symbol@, r.trading_enabled);
            assert(book_wf(b));
            r.books.len() as int
        },
    }
}

/// The cancel events of books of which only the one at `k` may emit are that book's.
proof fn lemma_fanout_single(books: Seq<BookView>, c: CancelOrder, k: int)
    requires
        0 <= k < books.len(),
        forall|m: int|
            0 <= m < books.len() && m != k ==> cancel_events(#[trigger] books[m], c) == Seq::<ResultView>::empty(),
    ensures
        fanout_events(books, c) == cancel_events(books[k], c),
    decreases books.len(),
{
    let t = books.drop_last();
    if k == books.len() - 1 {
        assert forall|m: int| 0 <= m < t.len() implies cancel_events(#[trigger] t[m], c)
            == Seq::<ResultView>::empty() by {
            assert(t[m] == books[m]);
        }
        fanout_of_silent_books(t, c);
        assert(fanout_events(books, c) =~= cancel_events(books[k], c));
    } else {
        assert forall|m: int| 0 <= m < t.len() && m != k implies cancel_events(#[trigger] t[m], c)
            == Seq::<ResultView>::empty() by {
            assert(t[m] == books[m]);
        }
        lemma_fanout_single(t, c, k);
        assert(t[k] == books[k]);
        assert(cancel_events(books[books.len() - 1], c) == Seq::<ResultView>::empty());
        assert(fanout_events(books, c) =~= cancel_events(books[k], c));
    }
}

/// Cancelling the id of an order that a book without that id just took back leaves the
/// book's sides as they were before the add.
proof fn lemma_book_add_then_cancel(b: BookView, o: NewOrder)
    requires
        book_wf(b),
        o.side == 'B' || o.side == 'S',
        side_lacks_id(b.buys, o.user, o.user_order_id),
        side_lacks_id(b.sells, o.user, o.user_order_id),
        !(b.trading_enabled && crosses(b, o) && match_position(b, o) is Some),
    ensures
        ({
            let a = cancel_state(add_state(b, o), CancelOrder { user: o.user, user_order_id: o.user_order_id });
            a.buys == b.buys && a.sells == b.sells && a.trading_enabled == b.trading_enabled && a.symbol
                == b.symbol
        }),
{
    let (u, id) = (o.user, o.user_order_id);
    lemma_book_levels_non_empty(b);
    lemma_side_cancel_keeps(b.buys, u, id);
    lemma_side_cancel_keeps(b.sells, u, id);
    if !crosses(b, o) {
        let e = stamped(o, b.next_arrival);
        if o.side == 'B' {
            lemma_insert_then_cancel(b.buys, e);
        } else {
            lemma_insert_then_cancel(b.sells, e);
        }
    }
}

/// The cancel that follows an add which rested order X (on a registry where no resting
/// order carried X's id) gives every book its sides from before the add back (a book
/// created by the add is left empty), and emits the acknowledgement and then, on X's
/// side only, the change back to the top from before the add, exactly when the add had
/// announced a change of that top.
pub proof fn cancel_after_add_restores_books(r: RegistryView, o: NewOrder)
    requires
        registry_wf(r),
        o.side == 'B' || o.side == 'S',
        o.qty > 0,
        registry_lacks_id(r, o.user, o.user_order_id),
        !crosses(target_book(r, o), o),
    ensures
        ({
            let c = CancelOrder { user: o.user, user_order_id: o.user_order_id };
            let ack = ResultView::Acknowledgement { user: o.user, user_order_id: o.user_order_id };
            let b = target_book(r, o);
            let b1 = add_state(b, o);
            let s = o.side;
            let r1 = registry_add_state(r, o);
            let r2 = registry_cancel_state(r1, c);
            &&& add_events(b, o) == seq![ack] + top_change(top_of(side_of(b, s), s), top_of(side_of(b1, s), s))
            &&& registry_cancel_events(r1, c) == seq![ack] + top_change(
                top_of(side_of(b1, s), s),
                top_of(side_of(b, s), s),
            )
            &&& r2.books.len() >= r.books.len()
            &&& forall|m: int|
                0 <= m < r.books.len() ==> (#[trigger] r2.books[m]).buys == r.books[m].buys && r2.books[m].sells
                    == r.books[m].sells
            &&& forall|m: int|
                r.books.len() <= m < r2.books.len() ==> (#[trigger] r2.books[m]).buys.len() == 0
                    && r2.books[m].sells.len() == 0
        }),
{
    let c = CancelOrder { user: o.user, user_order_id: o.user_order_id };
    let (u, id) = (o.user, o.user_order_id);
    let b = target_book(r, o);
    let b1 = add_state(b, o);
    let r1 = registry_add_state(r, o);
    let r2 = registry_cancel_state(r1, c);
    let k = lemma_registry_add_at(r, o);
    if k < r.books.len() {
        assert(side_lacks_id(r.books[k].buys, u, id) && side_lacks_id(r.books[k].sells, u, id));
    }
    lemma_book_add_then_cancel(b, o);
    assert forall|m: int| 0 <= m < r1.books.len() && m != k implies cancel_events(#[trigger] r1.books[m], c)
        == Seq::<ResultView>::empty() && cancel_state(r1.books[m], c) == r1.books[m] by {
        assert(r1.books[m] == r.books[m]);
        assert(book_wf(r.books[m]));
        lemma_book_levels_non_empty(r.books[m]);
        cancel_of_absent_id_is_silent(r.books[m], c);
    }
    lemma_fanout_single(r1.books, c, k);
    let other = opposite(o.side);
    assert(side_of(b1, other) == side_of(b, other));
    assert(cancel_events(b1, c) =~= top_change(top_of(side_of(b1, o.side), o.side), top_of(side_of(b, o.side), o.side)));
    assert(registry_cancel_events(r1, c) =~= seq![
        ResultView::Acknowledgement { user: o.user, user_order_id: o.user_order_id },
    ] + top_change(top_of(side_of(b1, o.side), o.side), top_of(side_of(b, o.side), o.side)));
    assert forall|m: int| 0 <= m < r.books.len() implies (#[trigger] r2.books[m]).buys == r.books[m].buys
        && r2.books[m].sells == r.books[m].sells by {
        if m != k {
            assert(r1.books[m] == r.books[m]);
        }
    }
}

/// `add X; cancel X; add X` leaves the registry as `add X` alone left it, up to arrival
/// tags and counters: the same books, with the same symbols and trading flag, holding
/// the same orders (owners, ids, prices, quantities) level by level. This holds where no
/// resting order carried X's id and the first add made no trade.
pub proof fn add_cancel_add_restores_state(r: RegistryView, o: NewOrder)
    requires
        registry_wf(r),
        o.side == 'B' || o.side == 'S',
        o.qty > 0,
        registry_lacks_id(r, o.user, o.user_order_id),
        !(r.trading_enabled && crosses(target_book(r, o), o) && match_position(target_book(r, o), o) is Some),
    ensures
        ({
            let c = CancelOrder { user: o.user, user_order_id: o.user_order_id };
            let r1 = registry_add_state(r, o);
            let r3 = registry_add_state(registry_cancel_state(r1, c), o);
            &&& r3.trading_enabled == r1.trading_enabled
            &&& r3.books.len() == r1.books.len()
            &&& forall|m: int|
                0 <= m < r1.books.len() ==> (#[trigger] r3.books[m]).symbol == r1.books[m].symbol
                    && r3.books[m].trading_enabled == r1.books[m].trading_enabled && untagged(r3.books[m].buys)
                    == untagged(r1.books[m].buys) && untagged(r3.books[m].sells) == untagged(r1.books[m].sells)
        }),
{
    let c = CancelOrder { user: o.user, user_order_id: o.user_order_id };
    let (u, id) = (o.user, o.user_order_id);
    let sym = o.symbol@;
    let b = target_book(r, o);
    let r1 = registry_add_state(r, o);
    let r2 = registry_cancel_state(r1, c);
    let r3 = registry_add_state(r2, o);
    let k = lemma_registry_add_at(r, o);
    if k < r.books.len() {
        assert(side_lacks_id(r.books[k].buys, u, id) && side_lacks_id(r.books[k].sells, u, id));
    }
    lemma_book_add_then_cancel(b, o);
    let b2 = cancel_state(add_state(b, o), c);
    assert forall|m: int| 0 <= m < r1.books.len() && m != k implies (#[trigger] r2.books[m]) == r1.books[m] by {
        assert(r1.books[m] == r.books[m]);
        assert(book_wf(r.books[m]));
        lemma_book_levels_non_empty(r.books[m]);
        cancel_of_absent_id_is_silent(r.books[m], c);
    }
    // The second add goes to the book at `k` again.
    assert forall|m: int| 0 <= m < r2.books.len() implies (#[trigger] r2.books[m]).symbol == r1.books[m].symbol by {}
    lemma_find_book_by_symbols(r2.books, r1.books, sym, 0);
    lemma_find_book_props(r1.books, sym, 0);
    lemma_find_book_props(r.books, sym, 0);
    if find_book(r1.books, sym, 0) != Some(k) {
        match find_book(r1.books, sym, 0) {
            Some(x) => {
                if x < k {
                    assert(r1.books[x] == r.books[x]);
                } else {
                    assert(r1.books[k].symbol == sym);
                }
            },
            None => {
                assert(r1.books[k].symbol == sym);
            },
        }
    }
    assert(find_book(r2.books, sym, 0) == Some(k));
    assert(r3.books == r2.books.update(k, add_state(b2, o)));
    // Its sides after the second add match those after the first, up to arrival tags.
    let a1 = add_state(b, o);
    let a3 = add_state(b2, o);
    if crosses(b, o) {
        assert(a3.buys == a1.buys && a3.sells == a1.sells);
    } else {
        lemma_insert_untagged(b.buys, stamped(o, b2.next_arrival), stamped(o, b.next_arrival));
        lemma_insert_untagged(b.sells, stamped(o, b2.next_arrival), stamped(o, b.next_arrival));
        assert(untagged(a3.buys) == untagged(a1.buys));
        assert(untagged(a3.sells) == untagged(a1.sells));
    }
}

/// No resting order of the registry carries the id.
pub open spec fn registry_lacks_id(r: RegistryView, user: u64, user_order_id: u64) -> bool {
    forall|k: int|
        0 <= k < r.books.len() ==> side_lacks_id((#[trigger] r.books[k]).buys, user, user_order_id)
            && side_lacks_id(r.books[k].sells, user, user_order_id)
}

/// `add X; cancel X; add X` repeats itself: where no resting order carried X's id and
/// the first add made no trade, the second add emits exactly the events of the first.
pub proof fn add_cancel_add_repeats_events(r: RegistryView, o: NewOrder)
    requires
        registry_wf(r),
        o.side == 'B' || o.side == 'S',
        o.qty > 0,
        registry_lacks_id(r, o.user, o.user_order_id),
        !(r.trading_enabled && crosses(target_book(r, o), o) && match_position(target_book(r, o), o) is Some),
    ensures
        ({
            let c = CancelOrder { user: o.user, user_order_id: o.user_order_id };
            let r2 = registry_cancel_state(registry_add_state(r, o), c);
            registry_add_events(r2, o) == registry_add_events(r, o)
        }),
{
    let c = CancelOrder { user: o.user, user_order_id: o.user_order_id };
    let r1 = registry_add_state(r, o);
    let r2 = registry_cancel_state(r1, c);
    let b = target_book(r, o);
    let sym = o.symbol@;
    lemma_find_book_props(r.books, sym, 0);
    let k: int = match find_book(r.books, sym, 0) {
        Some(k) => k,
        None => r.books.len() as int,
    };
    assert(r1.books[k] == add_state(b, o));
    assert forall|m: int| 0 <= m < r2.books.len() implies (#[trigger] r2.books[m]).symbol == r.books.push(b)[m].symbol by {
        if m == k {
            assert(r2.books[m] == cancel_state(r1.books[m], c));
        } else {
            assert(r2.books[m] == cancel_state(r1.books[m], c));
            assert(r1.books[m] == r.books[m]);
        }
    }
    // The second add goes to the same book, at index `k`.
    match find_book(r.books, sym, 0) {
        Some(_) => {
            assert(r2.books.len() == r.books.len());
            lemma_find_book_by_symbols(r2.books, r.books, sym, 0);
        },
        None => {
            lemma_find_book_props(r2.books, sym, 0);
            assert(r2.books.len() == r.books.len() + 1);
            assert(r2.books[k].symbol == sym);
            if find_book(r2.books, sym, 0) is None {
                assert(r2.books[k].symbol != sym);
            }
            assert(find_book(r2.books, sym, 0) == Some(k));
        },
    }
    assert(target_book(r2, o) == cancel_state(add_state(b, o), c));
    // The book `k` is back to its sides before the first add.
    if find_book(r.books, sym, 0) is Some {
        assert(book_wf(r.books[k]));
    }
    assert(book_wf(b));
    let a = add_state(b, o);
    let (u, id) = (o.user, o.user_order_id);
    assert(side_lacks_id(b.buys, u, id) && side_lacks_id(b.sells, u, id));
    assert forall|i: int| 0 <= i < b.buys.len() implies (#[trigger] b.buys[i]).len() > 0 by {
        assert(crate::book_side::level_wf(b.buys[i]));
    }
    assert forall|i: int| 0 <= i < b.sells.len() implies (#[trigger] b.sells[i]).len() > 0 by {
        assert(crate::book_side::level_wf(b.sells[i]));
    }
    lemma_side_cancel_keeps(b.buys, u, id);
    lemma_side_cancel_keeps(b.sells, u, id);
    if !crosses(b, o) {
        let e = stamped(o, b.next_arrival);
        if o.side == 'B' {
            lemma_insert_then_cancel(b.buys, e);
        } else {
            lemma_insert_then_cancel(b.sells, e);
        }
    }
    let b2 = cancel_state(a, c);
    assert(b2.buys == b.buys && b2.sells == b.sells && b2.trading_enabled == b.trading_enabled);
    add_events_depend_on_sides(b2, b, o);
}

} // verus!
