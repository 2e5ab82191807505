//! One side of a book: price levels in ascending price order, each level holding its
//! resting orders in arrival order.
use vstd::prelude::*;
use crate::order::ExistingOrder;
use crate::order_book::TopOfBook;

verus! {

/// Aggregate quantity of a price level.
pub open spec fn level_total(l: Seq<ExistingOrder>) -> nat
    decreases l.len(),
{
    if l.len() == 0 {
        0
    } else {
        level_total(l.drop_last()) + l.last().qty as nat
    }
}

/// `n` as a `u64`, saturating at `u64::MAX`.
pub open spec fn capped(n: nat) -> u64 {
    if n > u64::MAX {
        u64::MAX
    } else {
        n as u64
    }
}

/// A price level is non-empty, all its orders carry the level's price, none has zero
/// quantity, and they stand in arrival order.
pub open spec fn level_wf(l: Seq<ExistingOrder>) -> bool {
    &&& l.len() > 0
    &&& forall|j: int| 0 <= j < l.len() ==> (#[trigger] l[j]).price == l[0].price && l[j].qty > 0
    &&& arrival_ordered(l)
}

/// Arrival tags never decrease along the level.
pub open spec fn arrival_ordered(l: Seq<ExistingOrder>) -> bool {
    forall|j: int, k: int| 0 <= j < k < l.len() ==> (#[trigger] l[j]).time_received <= (#[trigger] l[k]).time_received
}

/// Every arrival tag of the side is at most `n`.
pub open spec fn tags_at_most(s: Seq<Seq<ExistingOrder>>, n: u64) -> bool {
    forall|i: int, j: int| 0 <= i < s.len() && 0 <= j < s[i].len() ==> (#[trigger] s[i][j]).time_received <= n
}

/// Every level is well formed and level prices strictly increase.
pub open spec fn side_wf(s: Seq<Seq<ExistingOrder>>) -> bool {
    &&& forall|i: int| 0 <= i < s.len() ==> level_wf(#[trigger] s[i])
    &&& forall|i: int, k: int| 0 <= i < k < s.len() ==> (#[trigger] s[i])[0].price < (#[trigger] s[k])[0].price
}

/// Price of the level at index `i`.
pub open spec fn price_at(s: Seq<Seq<ExistingOrder>>, i: int) -> u64 {
    s[i][0].price
}

/// Index of the best level: the highest price for buys (`'B'`), the lowest for sells.
pub open spec fn best_index(s: Seq<Seq<ExistingOrder>>, side: char) -> int {
    if side == 'B' {
        s.len() - 1
    } else {
        0
    }
}

/// Top-of-book snapshot of a side: best price and aggregate quantity there, both absent
/// on an empty side.
pub open spec fn top_of(s: Seq<Seq<ExistingOrder>>, side: char) -> TopOfBook {
    if s.len() == 0 {
        TopOfBook { side, price: None, total_quantity: None }
    } else {
        let l = s[best_index(s, side)];
        TopOfBook { side, price: Some(l[0].price), total_quantity: Some(capped(level_total(l))) }
    }
}

/// Number of leading levels whose price is below `p`: where a level of price `p` stands
/// or would be inserted.
pub open spec fn lower_bound(s: Seq<Seq<ExistingOrder>>, p: u64) -> nat
    decreases s.len(),
{
    if s.len() == 0 {
        0
    } else if s[0][0].price >= p {
        0
    } else {
        1 + lower_bound(s.drop_first(), p)
    }
}

/// The side after appending `o` to the level of its price, creating that level in price
/// order if it does not exist.
pub open spec fn side_insert(s: Seq<Seq<ExistingOrder>>, o: ExistingOrder) -> Seq<Seq<ExistingOrder>> {
    let k = lower_bound(s, o.price) as int;
    if k < s.len() && s[k][0].price == o.price {
        s.update(k, s[k].push(o))
    } else {
        s.insert(k, seq![o])
    }
}

/// The side after removing order `j` of level `i`, dropping the level if it empties.
pub open spec fn side_remove(s: Seq<Seq<ExistingOrder>>, i: int, j: int) -> Seq<Seq<ExistingOrder>> {
    let l = s[i].remove(j);
    if l.len() == 0 {
        s.remove(i)
    } else {
        s.update(i, l)
    }
}

/// First index at or after `j` of an order of quantity `q` in a level.
pub open spec fn level_find(l: Seq<ExistingOrder>, q: u64, j: int) -> Option<int>
    decreases l.len() - j,
{
    if j < 0 || j >= l.len() {
        None
    } else if l[j].qty == q {
        Some(j)
    } else {
        level_find(l, q, j + 1)
    }
}

/// Where an incoming buy of price `p` and quantity `q` matches among sell levels, scanning
/// levels upward from index `i`: the first level priced at most `p` that holds an order
/// of quantity `q`, and the first such order in it.
pub open spec fn scan_up(s: Seq<Seq<ExistingOrder>>, p: u64, q: u64, i: int) -> Option<(int, int)>
    decreases s.len() - i,
{
    if i < 0 || i >= s.len() {
        None
    } else {
        let found = if s[i][0].price <= p {
            level_find(s[i], q, 0)
        } else {
            None
        };
        match found {
            Some(j) => Some((i, j)),
            None => scan_up(s, p, q, i + 1),
        }
    }
}

/// Where an incoming sell of price `p` and quantity `q` matches among buy levels, scanning
/// the `n` lowest levels downward from index `n - 1`: the first level priced at least `p`
/// that holds an order of quantity `q`, and the first such order in it.
pub open spec fn scan_down(s: Seq<Seq<ExistingOrder>>, p: u64, q: u64, n: int) -> Option<(int, int)>
    decreases n,
{
    if n <= 0 || n > s.len() {
        None
    } else {
        let i = n - 1;
        let found = if s[i][0].price >= p {
            level_find(s[i], q, 0)
        } else {
            None
        };
        match found {
            Some(j) => Some((i, j)),
            None => scan_down(s, p, q, n - 1),
        }
    }
}

/// Whether a resting order carries the id `(user, user_order_id)`.
pub open spec fn has_id(o: ExistingOrder, user: u64, user_order_id: u64) -> bool {
    o.user == user && o.user_order_id == user_order_id
}

/// The orders of a level that do not carry the id, in their order.
pub open spec fn level_cancel(l: Seq<ExistingOrder>, user: u64, user_order_id: u64) -> Seq<ExistingOrder>
    decreases l.len(),
{
    if l.len() == 0 {
        l
    } else {
        let rest = level_cancel(l.drop_last(), user, user_order_id);
        if has_id(l.last(), user, user_order_id) {
            rest
        } else {
            rest.push(l.last())
        }
    }
}

/// The side with every order carrying the id removed and emptied levels dropped.
pub open spec fn side_cancel(s: Seq<Seq<ExistingOrder>>, user: u64, user_order_id: u64) -> Seq<Seq<ExistingOrder>>
    decreases s.len(),
{
    if s.len() == 0 {
        s
    } else {
        let rest = side_cancel(s.drop_last(), user, user_order_id);
        let l = level_cancel(s.last(), user, user_order_id);
        if l.len() == 0 {
            rest
        } else {
            rest.push(l)
        }
    }
}

/// Under ascending prices, `lower_bound` is the index that splits the levels priced
/// below `p` from the others.
pub proof fn lemma_lower_bound(s: Seq<Seq<ExistingOrder>>, p: u64, k: int)
    requires
        side_wf(s),
        0 <= k <= s.len(),
        forall|i: int| 0 <= i < k ==> (#[trigger] s[i])[0].price < p,
        k < s.len() ==> s[k][0].price >= p,
    ensures
        lower_bound(s, p) == k,
    decreases s.len(),
{
    if s.len() > 0 && k > 0 {
        let t = s.drop_first();
        assert forall|i: int, m: int| 0 <= i < m < t.len() implies (#[trigger] t[i])[0].price
            < (#[trigger] t[m])[0].price by {
            assert(t[i] == s[i + 1] && t[m] == s[m + 1]);
        }
        assert forall|i: int| 0 <= i < t.len() implies level_wf(#[trigger] t[i]) by {
            assert(t[i] == s[i + 1]);
        }
        assert forall|i: int| 0 <= i < k - 1 implies (#[trigger] t[i])[0].price < p by {
            assert(t[i] == s[i + 1]);
        }
        if k - 1 < t.len() {
            assert(t[k - 1] == s[k]);
        }
        lemma_lower_bound(t, p, k - 1);
    }
}

/// Cancelling keeps a level's orders, in order, minus those with the id.
pub proof fn lemma_level_cancel_sub(l: Seq<ExistingOrder>, user: u64, user_order_id: u64, n: u64)
    requires
        level_wf(l),
        forall|j: int| 0 <= j < l.len() ==> (#[trigger] l[j]).time_received <= n,
    ensures
        level_cancel(l, user, user_order_id).len() > 0 ==> level_wf(level_cancel(l, user, user_order_id))
            && level_cancel(l, user, user_order_id)[0].price == l[0].price,
        forall|k: int|
            0 <= k < level_cancel(l, user, user_order_id).len() ==> (#[trigger] level_cancel(
                l,
                user,
                user_order_id,
            )[k]).time_received <= n,
    decreases l.len(),
{
    let r = level_cancel(l, user, user_order_id);
    let t = l.drop_last();
    let rest = level_cancel(t, user, user_order_id);
    let last = l.last();
    if t.len() > 0 {
        assert forall|j: int| 0 <= j < t.len() implies (#[trigger] t[j]).price == t[0].price
            && t[j].qty > 0 by {
            assert(t[j] == l[j]);
        }
        assert forall|j: int, k: int| 0 <= j < k < t.len() implies (#[trigger] t[j]).time_received
            <= (#[trigger] t[k]).time_received by {
            assert(t[j] == l[j] && t[k] == l[k]);
        }
        assert forall|j: int| 0 <= j < t.len() implies (#[trigger] t[j]).time_received <= last.time_received by {
            assert(t[j] == l[j]);
            assert(l[l.len() - 1] == last);
        }
        lemma_level_cancel_sub(t, user, user_order_id, n);
        lemma_level_cancel_sub(t, user, user_order_id, last.time_received);
    } else {
        assert(rest.len() == 0);
    }
    assert(l[l.len() - 1] == last);
    if !has_id(last, user, user_order_id) {
        assert(r == rest.push(last));
        assert forall|j: int| 0 <= j < r.len() implies (#[trigger] r[j]).price == r[0].price
            && r[j].qty > 0 && r[j].time_received <= n by {
            if j < rest.len() {
                assert(r[j] == rest[j]);
            }
            if rest.len() > 0 {
                assert(r[0] == rest[0]);
            }
        }
        assert forall|j: int, k: int| 0 <= j < k < r.len() implies (#[trigger] r[j]).time_received
            <= (#[trigger] r[k]).time_received by {
            assert(r[j] == rest[j]);
            if k < rest.len() {
                assert(r[k] == rest[k]);
            }
        }
    }
}

/// Cancelling keeps a side well formed, and only prices of the side remain.
pub proof fn lemma_side_cancel_wf(s: Seq<Seq<ExistingOrder>>, user: u64, user_order_id: u64, n: u64)
    requires
        side_wf(s),
        tags_at_most(s, n),
    ensures
        side_wf(side_cancel(s, user, user_order_id)),
        tags_at_most(side_cancel(s, user, user_order_id), n),
        side_cancel(s, user, user_order_id).len() > 0 ==> s.len() > 0 && price_at(
            side_cancel(s, user, user_order_id),
            side_cancel(s, user, user_order_id).len() - 1,
        ) <= price_at(s, s.len() - 1),
        side_cancel(s, user, user_order_id).len() > 0 ==> price_at(side_cancel(s, user, user_order_id), 0)
            >= price_at(s, 0),
    decreases s.len(),
{
    if s.len() > 0 {
        let t = s.drop_last();
        assert forall|i: int| 0 <= i < t.len() implies level_wf(#[trigger] t[i]) by {
            assert(t[i] == s[i]);
        }
        assert forall|i: int, k: int| 0 <= i < k < t.len() implies (#[trigger] t[i])[0].price
            < (#[trigger] t[k])[0].price by {
            assert(t[i] == s[i] && t[k] == s[k]);
        }
        assert forall|i: int, j: int| 0 <= i < t.len() && 0 <= j < t[i].len() implies (
        #[trigger] t[i][j]).time_received <= n by {
            assert(t[i] == s[i]);
        }
        lemma_side_cancel_wf(t, user, user_order_id, n);
        let rest = side_cancel(t, user, user_order_id);
        let l = level_cancel(s.last(), user, user_order_id);
        assert(level_wf(s[s.len() - 1]));
        assert forall|j: int| 0 <= j < s.last().len() implies (#[trigger] s.last()[j]).time_received <= n by {
            assert(s[s.len() - 1][j] == s.last()[j]);
        }
        lemma_level_cancel_sub(s.last(), user, user_order_id, n);
        if l.len() > 0 {
            let r = rest.push(l);
            if rest.len() > 0 {
                assert(t[t.len() - 1] == s[s.len() - 2]);
                assert(s[s.len() - 2][0].price < s[s.len() - 1][0].price);
            }
            assert forall|i: int| 0 <= i < r.len() implies level_wf(#[trigger] r[i]) by {
                if i < rest.len() {
                    assert(r[i] == rest[i]);
                }
            }
            assert forall|i: int, j: int| 0 <= i < r.len() && 0 <= j < r[i].len() implies (
            #[trigger] r[i][j]).time_received <= n by {
                if i < rest.len() {
                    assert(r[i] == rest[i]);
                }
            }
            if rest.len() > 0 {
                assert(r[0] == rest[0]);
                assert(t[0] == s[0]);
            } else {
                assert(s[0][0].price <= s[s.len() - 1][0].price);
            }
            assert forall|i: int, k: int| 0 <= i < k < r.len() implies (#[trigger] r[i])[0].price
                < (#[trigger] r[k])[0].price by {
                assert(r[i] == rest[i]);
                if k < rest.len() {
                    assert(r[k] == rest[k]);
                } else {
                    assert(rest[i][0].price <= rest[rest.len() - 1][0].price);
                }
            }
        }
    }
}

/// What `lower_bound` counts: the levels before it are priced below `p`, the one at it
/// (if any) is not.
pub proof fn lemma_lower_bound_props(s: Seq<Seq<ExistingOrder>>, p: u64)
    ensures
        0 <= lower_bound(s, p) <= s.len(),
        forall|i: int| 0 <= i < lower_bound(s, p) ==> (#[trigger] s[i])[0].price < p,
        lower_bound(s, p) < s.len() ==> s[lower_bound(s, p) as int][0].price >= p,
    decreases s.len(),
{
    if s.len() > 0 && s[0][0].price < p {
        let t = s.drop_first();
        lemma_lower_bound_props(t, p);
        assert forall|i: int| 0 <= i < lower_bound(s, p) implies (#[trigger] s[i])[0].price < p by {
            if i > 0 {
                assert(s[i] == t[i - 1]);
            }
        }
        if lower_bound(s, p) < s.len() {
            assert(s[lower_bound(s, p) as int] == t[lower_bound(t, p) as int]);
        }
    }
}

/// After an insertion the side's lowest price is the lower of the old lowest and the
/// new order's price, and its highest price the higher of the old highest and it.
pub proof fn lemma_insert_ends(s: Seq<Seq<ExistingOrder>>, o: ExistingOrder)
    requires
        side_wf(s),
    ensures
        side_insert(s, o).len() > 0,
        price_at(side_insert(s, o), 0) == if s.len() == 0 || o.price < price_at(s, 0) {
            o.price
        } else {
            price_at(s, 0)
        },
        price_at(side_insert(s, o), side_insert(s, o).len() - 1) == if s.len() == 0 || o.price
            > price_at(s, s.len() - 1) {
            o.price
        } else {
            price_at(s, s.len() - 1)
        },
{
    lemma_lower_bound_props(s, o.price);
    let k = lower_bound(s, o.price) as int;
    let r = side_insert(s, o);
    if s.len() > 0 {
        assert(level_wf(s[0]) && level_wf(s[s.len() - 1]));
        if k < s.len() {
            assert(s[k][0].price <= s[s.len() - 1][0].price);
        }
        if k > 0 {
            assert(s[0][0].price <= s[k - 1][0].price);
        }
    }
    if k < s.len() && s[k][0].price == o.price {
        assert(level_wf(s[k]));
        assert(r[0][0] == s[0][0]);
        assert(r[r.len() - 1][0] == s[s.len() - 1][0]);
    } else {
        assert(r[k] == seq![o]);
        if k > 0 {
            assert(r[0] == s[0]);
        }
        if k < s.len() {
            assert(r[r.len() - 1] == s[s.len() - 1]);
        }
    }
}

/// After a removal the side's lowest price does not drop and its highest price does not
/// rise.
pub proof fn lemma_remove_ends(s: Seq<Seq<ExistingOrder>>, i: int, j: int)
    requires
        side_wf(s),
        0 <= i < s.len(),
        0 <= j < s[i].len(),
    ensures
        side_remove(s, i, j).len() > 0 ==> price_at(side_remove(s, i, j), 0) >= price_at(s, 0)
            && price_at(side_remove(s, i, j), side_remove(s, i, j).len() - 1) <= price_at(
            s,
            s.len() - 1,
        ),
{
    let l = s[i].remove(j);
    let r = side_remove(s, i, j);
    assert(level_wf(s[i]));
    if r.len() > 0 {
        if l.len() == 0 {
            let a = if 0 < i { 0 } else { 1int };
            let b = if r.len() - 1 < i { r.len() - 1 } else { r.len() as int };
            assert(r[0] == s[a]);
            assert(r[r.len() - 1] == s[b]);
            if a > 0 {
                assert(s[0][0].price < s[a][0].price);
            }
            if b < s.len() - 1 {
                assert(s[b][0].price < s[s.len() - 1][0].price);
            }
        } else {
            assert(l[0] == s[i][0] || l[0] == s[i][1]);
            if i > 0 {
                assert(r[0] == s[0]);
            }
            if i < s.len() - 1 {
                assert(r[r.len() - 1] == s[s.len() - 1]);
            }
        }
    }
}

/// A found index lies in the level, at or after `j`, on an order of quantity `q`.
pub proof fn lemma_level_find_valid(l: Seq<ExistingOrder>, q: u64, j: int)
    ensures
        level_find(l, q, j) matches Some(x) ==> j <= x < l.len() && 0 <= x && l[x].qty == q,
    decreases l.len() - j,
{
    if 0 <= j < l.len() && l[j].qty != q {
        lemma_level_find_valid(l, q, j + 1);
    }
}

/// A position found scanning upward lies in the side, on a level priced at most `p`
/// and an order of quantity `q`.
pub proof fn lemma_scan_up_valid(s: Seq<Seq<ExistingOrder>>, p: u64, q: u64, i: int)
    ensures
        scan_up(s, p, q, i) matches Some((a, b)) ==> 0 <= a < s.len() && 0 <= b < s[a].len()
            && s[a][b].qty == q && s[a][0].price <= p,
    decreases s.len() - i,
{
    if 0 <= i < s.len() {
        lemma_level_find_valid(s[i], q, 0);
        lemma_scan_up_valid(s, p, q, i + 1);
    }
}

/// A position found scanning downward lies in the side, on a level priced at least `p`
/// and an order of quantity `q`.
pub proof fn lemma_scan_down_valid(s: Seq<Seq<ExistingOrder>>, p: u64, q: u64, n: int)
    ensures
        scan_down(s, p, q, n) matches Some((a, b)) ==> 0 <= a < s.len() && 0 <= b < s[a].len()
            && s[a][b].qty == q && s[a][0].price >= p,
    decreases n,
{
    if 0 < n <= s.len() {
        lemma_level_find_valid(s[n - 1], q, 0);
        lemma_scan_down_valid(s, p, q, n - 1);
    }
}

/// Removing an order takes exactly its quantity off the level's aggregate.
pub proof fn lemma_level_total_remove(l: Seq<ExistingOrder>, j: int)
    requires
        0 <= j < l.len(),
    ensures
        level_total(l.remove(j)) + l[j].qty == level_total(l),
    decreases l.len(),
{
    if j == l.len() - 1 {
        assert(l.remove(j) =~= l.drop_last());
    } else {
        lemma_level_total_remove(l.drop_last(), j);
        assert(l.remove(j).drop_last() =~= l.drop_last().remove(j));
        assert(l.remove(j).last() == l.last());
    }
}

/// No order of the side carries the id.
pub open spec fn side_lacks_id(s: Seq<Seq<ExistingOrder>>, user: u64, user_order_id: u64) -> bool {
    forall|i: int, j: int|
        0 <= i < s.len() && 0 <= j < s[i].len() ==> !has_id(#[trigger] s[i][j], user, user_order_id)
}

/// Every level of the side holds an order.
pub open spec fn levels_non_empty(s: Seq<Seq<ExistingOrder>>) -> bool {
    forall|i: int| 0 <= i < s.len() ==> (#[trigger] s[i]).len() > 0
}

/// A level with no order carrying the id is kept whole by a cancel of it.
pub proof fn lemma_level_cancel_keeps(l: Seq<ExistingOrder>, user: u64, user_order_id: u64)
    requires
        forall|j: int| 0 <= j < l.len() ==> !has_id(#[trigger] l[j], user, user_order_id),
    ensures
        level_cancel(l, user, user_order_id) == l,
    decreases l.len(),
{
    if l.len() > 0 {
        let t = l.drop_last();
        assert forall|j: int| 0 <= j < t.len() implies !has_id(#[trigger] t[j], user, user_order_id) by {
            assert(t[j] == l[j]);
        }
        lemma_level_cancel_keeps(t, user, user_order_id);
        assert(l.drop_last().push(l.last()) =~= l);
    }
}

/// After a cancel, no order of the level carries the id.
pub proof fn lemma_level_cancel_clean(l: Seq<ExistingOrder>, user: u64, user_order_id: u64)
    ensures
        forall|j: int|
            0 <= j < level_cancel(l, user, user_order_id).len() ==> !has_id(
                #[trigger] level_cancel(l, user, user_order_id)[j],
                user,
                user_order_id,
            ),
    decreases l.len(),
{
    if l.len() > 0 {
        lemma_level_cancel_clean(l.drop_last(), user, user_order_id);
        let rest = level_cancel(l.drop_last(), user, user_order_id);
        let r = level_cancel(l, user, user_order_id);
        assert forall|j: int| 0 <= j < r.len() implies !has_id(#[trigger] r[j], user, user_order_id) by {
            if j < rest.len() {
                assert(r[j] == rest[j]);
            }
        }
    }
}

/// A side whose levels hold orders, none carrying the id, is kept whole by a cancel.
pub proof fn lemma_side_cancel_keeps(s: Seq<Seq<ExistingOrder>>, user: u64, user_order_id: u64)
    requires
        levels_non_empty(s),
        side_lacks_id(s, user, user_order_id),
    ensures
        side_cancel(s, user, user_order_id) == s,
    decreases s.len(),
{
    if s.len() > 0 {
        let t = s.drop_last();
        assert forall|i: int| 0 <= i < t.len() implies (#[trigger] t[i]).len() > 0 by {
            assert(t[i] == s[i]);
        }
        assert forall|i: int, j: int| 0 <= i < t.len() && 0 <= j < t[i].len() implies !has_id(
            #[trigger] t[i][j],
            user,
            user_order_id,
        ) by {
            assert(t[i] == s[i]);
        }
        lemma_side_cancel_keeps(t, user, user_order_id);
        let l = s.last();
        assert forall|j: int| 0 <= j < l.len() implies !has_id(#[trigger] l[j], user, user_order_id) by {
            assert(s[s.len() - 1][j] == l[j]);
        }
        lemma_level_cancel_keeps(l, user, user_order_id);
        assert(s[s.len() - 1].len() > 0);
        assert(t.push(l) =~= s);
    }
}

/// After a cancel, every level holds an order and none carries the id.
pub proof fn lemma_side_cancel_clean(s: Seq<Seq<ExistingOrder>>, user: u64, user_order_id: u64)
    ensures
        levels_non_empty(side_cancel(s, user, user_order_id)),
        side_lacks_id(side_cancel(s, user, user_order_id), user, user_order_id),
    decreases s.len(),
{
    if s.len() > 0 {
        lemma_side_cancel_clean(s.drop_last(), user, user_order_id);
        lemma_level_cancel_clean(s.last(), user, user_order_id);
        let rest = side_cancel(s.drop_last(), user, user_order_id);
        let r = side_cancel(s, user, user_order_id);
        assert forall|i: int| 0 <= i < r.len() implies (#[trigger] r[i]).len() > 0 by {
            if i < rest.len() {
                assert(r[i] == rest[i]);
            }
        }
        assert forall|i: int, j: int| 0 <= i < r.len() && 0 <= j < r[i].len() implies !has_id(
            #[trigger] r[i][j],
            user,
            user_order_id,
        ) by {
            if i < rest.len() {
                assert(r[i] == rest[i]);
            }
        }
    }
}

/// A cancel acts on a concatenation part by part.
pub proof fn lemma_side_cancel_append(a: Seq<Seq<ExistingOrder>>, b: Seq<Seq<ExistingOrder>>, user: u64, user_order_id: u64)
    ensures
        side_cancel(a + b, user, user_order_id) == side_cancel(a, user, user_order_id) + side_cancel(
            b,
            user,
            user_order_id,
        ),
    decreases b.len(),
{
    if b.len() == 0 {
        assert(a + b =~= a);
        assert(side_cancel(a, user, user_order_id) + side_cancel(b, user, user_order_id) =~= side_cancel(
            a,
            user,
            user_order_id,
        ));
    } else {
        lemma_side_cancel_append(a, b.drop_last(), user, user_order_id);
        assert((a + b).drop_last() =~= a + b.drop_last());
        assert((a + b).last() == b.last());
        let l = level_cancel(b.last(), user, user_order_id);
        if l.len() > 0 {
            assert(side_cancel(a, user, user_order_id) + side_cancel(b.drop_last(), user, user_order_id).push(l)
                =~= (side_cancel(a, user, user_order_id) + side_cancel(b.drop_last(), user, user_order_id)).push(l));
        }
    }
}

/// Cancelling the id of an order just inserted into a side that lacked that id gives the
/// side back.
pub proof fn lemma_insert_then_cancel(s: Seq<Seq<ExistingOrder>>, o: ExistingOrder)
    requires
        side_wf(s),
        side_lacks_id(s, o.user, o.user_order_id),
    ensures
        side_cancel(side_insert(s, o), o.user, o.user_order_id) == s,
{
    let (u, id) = (o.user, o.user_order_id);
    lemma_lower_bound_props(s, o.price);
    let k = lower_bound(s, o.price) as int;
    let head = s.take(k);
    let tail = s.skip(k);
    assert forall|i: int| 0 <= i < s.len() implies (#[trigger] s[i]).len() > 0 by {
        assert(level_wf(s[i]));
    }
    assert forall|i: int| 0 <= i < head.len() implies (#[trigger] head[i]).len() > 0 by {
        assert(head[i] == s[i]);
    }
    assert forall|i: int, j: int| 0 <= i < head.len() && 0 <= j < head[i].len() implies !has_id(
        #[trigger] head[i][j],
        u,
        id,
    ) by {
        assert(head[i] == s[i]);
    }
    lemma_side_cancel_keeps(head, u, id);
    if k < s.len() && s[k][0].price == o.price {
        let rest = s.skip(k + 1);
        let l = s[k];
        assert(s.update(k, l.push(o)) =~= head + seq![l.push(o)] + rest);
        assert forall|i: int| 0 <= i < rest.len() implies (#[trigger] rest[i]).len() > 0 by {
            assert(rest[i] == s[i + k + 1]);
        }
        assert forall|i: int, j: int| 0 <= i < rest.len() && 0 <= j < rest[i].len() implies !has_id(
            #[trigger] rest[i][j],
            u,
            id,
        ) by {
            assert(rest[i] == s[i + k + 1]);
        }
        lemma_side_cancel_keeps(rest, u, id);
        assert forall|j: int| 0 <= j < l.len() implies !has_id(#[trigger] l[j], u, id) by {
            assert(s[k][j] == l[j]);
        }
        lemma_level_cancel_keeps(l, u, id);
        assert(l.push(o).drop_last() =~= l);
        assert(level_cancel(l.push(o), u, id) == l);
        let single = seq![l.push(o)];
        assert(single.drop_last() =~= Seq::<Seq<ExistingOrder>>::empty());
        assert(side_cancel(Seq::<Seq<ExistingOrder>>::empty(), u, id) == Seq::<Seq<ExistingOrder>>::empty());
        assert(single.last() == l.push(o));
        assert(level_wf(l));
        assert(side_cancel(single, u, id) =~= seq![l]);
        lemma_side_cancel_append(head, single, u, id);
        lemma_side_cancel_append(head + single, rest, u, id);
        assert(head + seq![l] + rest =~= s);
    } else {
        assert(s.insert(k, seq![o]) =~= head + seq![seq![o]] + tail);
        assert forall|i: int| 0 <= i < tail.len() implies (#[trigger] tail[i]).len() > 0 by {
            assert(tail[i] == s[i + k]);
        }
        assert forall|i: int, j: int| 0 <= i < tail.len() && 0 <= j < tail[i].len() implies !has_id(
            #[trigger] tail[i][j],
            u,
            id,
        ) by {
            assert(tail[i] == s[i + k]);
        }
        lemma_side_cancel_keeps(tail, u, id);
        let single = seq![seq![o]];
        assert(seq![o].drop_last() =~= Seq::<ExistingOrder>::empty());
        assert(level_cancel(Seq::<ExistingOrder>::empty(), u, id) == Seq::<ExistingOrder>::empty());
        assert(seq![o].last() == o);
        assert(level_cancel(seq![o], u, id) =~= Seq::<ExistingOrder>::empty());
        assert(side_cancel(Seq::<Seq<ExistingOrder>>::empty(), u, id) == Seq::<Seq<ExistingOrder>>::empty());
        assert(single.drop_last() =~= Seq::<Seq<ExistingOrder>>::empty());
        assert(side_cancel(single, u, id) =~= Seq::<Seq<ExistingOrder>>::empty());
        lemma_side_cancel_append(head, single, u, id);
        lemma_side_cancel_append(head + single, tail, u, id);
        assert(head + Seq::<Seq<ExistingOrder>>::empty() + tail =~= s);
    }
}

/// Two orders that differ at most in their arrival tag leave the same top-of-book
/// snapshot when inserted.
pub proof fn lemma_insert_top_ignores_tag(s: Seq<Seq<ExistingOrder>>, a: ExistingOrder, b: ExistingOrder, side: char)
    requires
        side_wf(s),
        a.price == b.price,
        a.qty == b.qty,
    ensures
        top_of(side_insert(s, a), side) == top_of(side_insert(s, b), side),
{
    let k = lower_bound(s, a.price) as int;
    lemma_lower_bound_props(s, a.price);
    let ra = side_insert(s, a);
    let rb = side_insert(s, b);
    assert(ra.len() == rb.len());
    let x = best_index(ra, side);
    if k < s.len() && s[k][0].price == a.price {
        assert(level_wf(s[k]));
        if x == k {
            assert(s[k].push(a).drop_last() =~= s[k]);
            assert(s[k].push(b).drop_last() =~= s[k]);
        } else {
            assert(ra[x] == rb[x]);
        }
    } else {
        if x == k {
            assert(seq![a].drop_last() =~= Seq::<ExistingOrder>::empty());
            assert(seq![b].drop_last() =~= Seq::<ExistingOrder>::empty());
        } else {
            assert(ra[x] == rb[x]);
        }
    }
}

/// A resting order with its arrival tag cleared.
pub open spec fn untagged_order(e: ExistingOrder) -> ExistingOrder {
    ExistingOrder { time_received: 0, ..e }
}

/// A side with every arrival tag cleared: what remains are the orders' owners, ids,
/// prices and quantities, level by level, in order.
pub open spec fn untagged(s: Seq<Seq<ExistingOrder>>) -> Seq<Seq<ExistingOrder>> {
    s.map_values(|l: Seq<ExistingOrder>| l.map_values(|e: ExistingOrder| untagged_order(e)))
}

/// Inserting two orders that differ at most in their arrival tag gives sides that differ
/// at most in arrival tags.
pub proof fn lemma_insert_untagged(s: Seq<Seq<ExistingOrder>>, a: ExistingOrder, b: ExistingOrder)
    requires
        untagged_order(a) == untagged_order(b),
    ensures
        untagged(side_insert(s, a)) == untagged(side_insert(s, b)),
{
    let k = lower_bound(s, a.price) as int;
    assert(a.price == b.price);
    lemma_lower_bound_props(s, a.price);
    let ra = side_insert(s, a);
    let rb = side_insert(s, b);
    assert(ra.len() == rb.len());
    assert forall|i: int| 0 <= i < ra.len() implies (#[trigger] untagged(ra)[i]) == untagged(rb)[i] by {
        if i == k {
            let la = ra[i];
            let lb = rb[i];
            assert(la.len() == lb.len());
            assert(la.map_values(|e: ExistingOrder| untagged_order(e)) =~= lb.map_values(
                |e: ExistingOrder| untagged_order(e),
            ));
        } else if k < s.len() && s[k][0].price == a.price {
            assert(ra[i] == s[i] && rb[i] == s[i]);
        } else if i < k {
            assert(ra[i] == s[i] && rb[i] == s[i]);
        } else {
            assert(ra[i] == s[i - 1] && rb[i] == s[i - 1]);
        }
    }
    assert(untagged(ra) =~= untagged(rb));
}

/// A found position as mathematical integers.
pub open spec fn position_view(r: Option<(usize, usize)>) -> Option<(int, int)> {
    match r {
        Some((i, j)) => Some((i as int, j as int)),
        None => None,
    }
}

/// First index of an order of quantity `q` in a level.
fn find_qty(level: &Vec<ExistingOrder>, q: u64) -> (r: Option<usize>)
    ensures
        match r {
            Some(j) => j < level@.len() && level_find(level@, q, 0) == Some(j as int),
            None => level_find(level@, q, 0) is None,
        },
{
    let mut j: usize = 0;
    while j < level.len()
        invariant
            0 <= j <= level@.len(),
            level_find(level@, q, 0) == level_find(level@, q, j as int),
        decreases level@.len() - j,
    {
        if level[j].qty == q {
            return Some(j);
        }
        j += 1;
    }
    None
}

/// The views of a vector of levels.
pub open spec fn levels_view(v: Seq<Vec<ExistingOrder>>) -> Seq<Seq<ExistingOrder>> {
    v.map_values(|l: Vec<ExistingOrder>| l@)
}

/// One side of a book.
pub struct BookSide {
    levels: Vec<Vec<ExistingOrder>>,
}

impl View for BookSide {
    type V = Seq<Seq<ExistingOrder>>;

    closed spec fn view(&self) -> Seq<Seq<ExistingOrder>> {
        levels_view(self.levels@)
    }
}

impl BookSide {
    pub fn new() -> (r: BookSide)
        ensures
            r@ == Seq::<Seq<ExistingOrder>>::empty(),
    {
        let r = BookSide { levels: Vec::new() };
        assert(r@ =~= Seq::<Seq<ExistingOrder>>::empty());
        r
    }

    pub fn is_empty(&self) -> (r: bool)
        ensures
            r == (self@.len() == 0),
    {
        self.levels.len() == 0
    }

    /// Price of the lowest level.
    pub fn lowest_price(&self) -> (r: u64)
        requires
            side_wf(self@),
            self@.len() > 0,
        ensures
            r == price_at(self@, 0),
    {
        assert(self.levels@[0]@ == self@[0]);
        assert(level_wf(self@[0]));
        self.levels[0][0].price
    }

    /// Price of the highest level.
    pub fn highest_price(&self) -> (r: u64)
        requires
            side_wf(self@),
            self@.len() > 0,
        ensures
            r == price_at(self@, self@.len() - 1),
    {
        let n = self.levels.len();
        assert(self.levels@[n - 1]@ == self@[n - 1]);
        assert(level_wf(self@[n - 1]));
        self.levels[n - 1][0].price
    }

    /// Top-of-book snapshot of this side, seen as side `side`.
    pub fn top(&self, side: char) -> (r: TopOfBook)
        requires
            side_wf(self@),
        ensures
            r == top_of(self@, side),
    {
        if self.levels.len() == 0 {
            return TopOfBook { side, price: None, total_quantity: None };
        }
        let i: usize = if side == 'B' {
            self.levels.len() - 1
        } else {
            0
        };
        let level = &self.levels[i];
        assert(level@ == self@[i as int]);
        let mut total: u64 = 0;
        let mut j: usize = 0;
        while j < level.len()
            invariant
                0 <= j <= level@.len(),
                total == capped(level_total(level@.take(j as int))),
            decreases level@.len() - j,
        {
            assert(level@.take(j + 1).drop_last() =~= level@.take(j as int));
            total = total.saturating_add(level[j].qty);
            j += 1;
        }
        assert(level@.take(j as int) =~= level@);
        TopOfBook { side, price: Some(level[0].price), total_quantity: Some(total) }
    }
    /// Appends `o` to the level of its price, creating the level in price order if needed.
    pub fn insert(&mut self, o: ExistingOrder)
        requires
            side_wf(old(self)@),
            tags_at_most(old(self)@, o.time_received),
            o.qty > 0,
        ensures
            final(self)@ == side_insert(old(self)@, o),
            side_wf(final(self)@),
            tags_at_most(final(self)@, o.time_received),
    {
        let ghost s = self@;
        assert forall|k: int| 0 <= k < s.len() implies (#[trigger] self.levels@[k])@.len() > 0 by {
            assert(self.levels@[k]@ == s[k]);
            assert(level_wf(s[k]));
        }
        let mut i: usize = 0;
        while i < self.levels.len() && self.levels[i][0].price < o.price
            invariant
                self@ == s,
                forall|k: int| 0 <= k < s.len() ==> (#[trigger] self.levels@[k])@.len() > 0,
                side_wf(s),
                0 <= i <= s.len(),
                forall|k: int| 0 <= k < i ==> (#[trigger] s[k])[0].price < o.price,
            decreases s.len() - i,
        {
            proof {
                assert(self.levels@[i as int]@ == s[i as int]);
                assert(level_wf(s[i as int]));
            }
            i += 1;
        }
        proof {
            if i < s.len() {
                assert(self.levels@[i as int]@ == s[i as int]);
                assert(level_wf(s[i as int]));
            }
            lemma_lower_bound(s, o.price, i as int);
        }
        if i < self.levels.len() && self.levels[i][0].price == o.price {
            let mut level = self.levels.remove(i);
            level.push(o);
            self.levels.insert(i, level);
            proof {
                let t = s.update(i as int, s[i as int].push(o));
                assert(self@ =~= t);
                assert forall|m: int| 0 <= m < t.len() implies level_wf(#[trigger] t[m]) by {
                    if m == i {
                        assert(level_wf(s[m]));
                    }
                }
                assert forall|a: int, b: int| 0 <= a < b < t.len() implies (#[trigger] t[a])[0].price
                    < (#[trigger] t[b])[0].price by {
                    assert(level_wf(s[a]) && level_wf(s[b]));
                    assert(t[a][0].price == s[a][0].price && t[b][0].price == s[b][0].price);
                }
            }
        } else {
            self.levels.insert(i, vec![o]);
            proof {
                let t = s.insert(i as int, seq![o]);
                assert(self.levels@[i as int]@ =~= seq![o]);
                assert(self@ =~= t);
                assert forall|m: int| 0 <= m < t.len() implies level_wf(#[trigger] t[m]) by {
                    if m < i {
                        assert(t[m] == s[m]);
                    } else if m > i {
                        assert(t[m] == s[m - 1]);
                    }
                }
                assert forall|a: int, b: int| 0 <= a < b < t.len() implies (#[trigger] t[a])[0].price
                    < (#[trigger] t[b])[0].price by {
                    if b < i {
                        assert(t[a] == s[a] && t[b] == s[b]);
                    } else if b == i {
                        assert(t[a] == s[a]);
                    } else if a < i {
                        assert(t[a] == s[a] && t[b] == s[b - 1]);
                        assert(s[b - 1][0].price >= o.price);
                    } else if a == i {
                        assert(t[b] == s[b - 1]);
                        assert(s[i as int][0].price >= o.price);
                        if b - 1 > i {
                            assert(s[i as int][0].price < s[b - 1][0].price);
                        }
                    } else {
                        assert(t[a] == s[a - 1] && t[b] == s[b - 1]);
                    }
                }
            }
        }
    }

    /// Removes and returns order `j` of level `i`, dropping the level if it empties.
    pub fn remove_at(&mut self, i: usize, j: usize) -> (r: ExistingOrder)
        requires
            side_wf(old(self)@),
            i < old(self)@.len(),
            j < old(self)@[i as int].len(),
        ensures
            r == old(self)@[i as int][j as int],
            final(self)@ == side_remove(old(self)@, i as int, j as int),
            side_wf(final(self)@),
    {
        let ghost s = self@;
        let mut level = self.levels.remove(i);
        assert(level@ == s[i as int]);
        let r = level.remove(j);
        if level.len() == 0 {
            proof {
                let t = s.remove(i as int);
                assert(self@ =~= t);
                assert forall|m: int| 0 <= m < t.len() implies level_wf(#[trigger] t[m]) by {
                    if m < i {
                        assert(t[m] == s[m]);
                    } else {
                        assert(t[m] == s[m + 1]);
                    }
                }
                assert forall|a: int, b: int| 0 <= a < b < t.len() implies (#[trigger] t[a])[0].price
                    < (#[trigger] t[b])[0].price by {
                    let a0 = if a < i { a } else { a + 1 };
                    let b0 = if b < i { b } else { b + 1 };
                    assert(t[a] == s[a0] && t[b] == s[b0]);
                }
            }
        } else {
            self.levels.insert(i, level);
            proof {
                let l = s[i as int].remove(j as int);
                let t = s.update(i as int, l);
                assert(self@ =~= t);
                assert(level_wf(s[i as int]));
                assert(l[0] == s[i as int][0] || l[0] == s[i as int][1]);
                assert forall|m: int| 0 <= m < t.len() implies level_wf(#[trigger] t[m]) by {
                    if m == i {
                        assert forall|x: int| 0 <= x < l.len() implies (#[trigger] l[x]).price == l[0].price
                            && l[x].qty > 0 by {
                            if x < j {
                                assert(l[x] == s[i as int][x]);
                            } else {
                                assert(l[x] == s[i as int][x + 1]);
                            }
                        }
                    }
                }
                assert forall|a: int, b: int| 0 <= a < b < t.len() implies (#[trigger] t[a])[0].price
                    < (#[trigger] t[b])[0].price by {
                    assert(level_wf(s[a]) && level_wf(s[b]));
                    assert(t[a][0].price == s[a][0].price && t[b][0].price == s[b][0].price);
                }
            }
        }
        r
    }
    /// Where an incoming buy of price `p` and quantity `q` matches on this (sell) side.
    pub fn find_up(&self, p: u64, q: u64) -> (r: Option<(usize, usize)>)
        requires
            side_wf(self@),
        ensures
            position_view(r) == scan_up(self@, p, q, 0),
            r matches Some((i, j)) ==> i < self@.len() && j < self@[i as int].len(),
    {
        let mut i: usize = 0;
        while i < self.levels.len()
            invariant
                side_wf(self@),
                0 <= i <= self@.len(),
                scan_up(self@, p, q, 0) == scan_up(self@, p, q, i as int),
            decreases self@.len() - i,
        {
            let level = &self.levels[i];
            assert(level@ == self@[i as int]);
            assert(level_wf(self@[i as int]));
            if level[0].price <= p {
                match find_qty(level, q) {
                    Some(j) => {
                        return Some((i, j));
                    },
                    None => {},
                }
            }
            i += 1;
        }
        None
    }

    /// Where an incoming sell of price `p` and quantity `q` matches on this (buy) side.
    pub fn find_down(&self, p: u64, q: u64) -> (r: Option<(usize, usize)>)
        requires
            side_wf(self@),
        ensures
            position_view(r) == scan_down(self@, p, q, self@.len() as int),
            r matches Some((i, j)) ==> i < self@.len() && j < self@[i as int].len(),
    {
        let mut n: usize = self.levels.len();
        while n > 0
            invariant
                side_wf(self@),
                0 <= n <= self@.len(),
                scan_down(self@, p, q, self@.len() as int) == scan_down(self@, p, q, n as int),
            decreases n,
        {
            let level = &self.levels[n - 1];
            assert(level@ == self@[n - 1]);
            assert(level_wf(self@[n - 1]));
            if level[0].price >= p {
                match find_qty(level, q) {
                    Some(j) => {
                        return Some((n - 1, j));
                    },
                    None => {},
                }
            }
            n -= 1;
        }
        None
    }

    /// Removes every order that carries `(user, user_order_id)`, dropping emptied levels.
    pub fn cancel(&mut self, user: u64, user_order_id: u64)
        requires
            side_wf(old(self)@),
        ensures
            final(self)@ == side_cancel(old(self)@, user, user_order_id),
            side_wf(final(self)@),
    {
        let ghost s = self@;
        proof {
            lemma_side_cancel_wf(s, user, user_order_id, u64::MAX);
        }
        let mut kept: Vec<Vec<ExistingOrder>> = Vec::new();
        let mut i: usize = 0;
        while i < self.levels.len()
            invariant
                self@ == s,
                0 <= i <= s.len(),
                levels_view(kept@) == side_cancel(s.take(i as int), user, user_order_id),
            decreases s.len() - i,
        {
            let level = &self.levels[i];
            assert(level@ == s[i as int]);
            let mut rest: Vec<ExistingOrder> = Vec::new();
            let mut j: usize = 0;
            while j < level.len()
                invariant
                    0 <= j <= level@.len(),
                    rest@ == level_cancel(level@.take(j as int), user, user_order_id),
                decreases level@.len() - j,
            {
                assert(level@.take(j + 1).drop_last() =~= level@.take(j as int));
                let e = level[j];
                if !(e.user == user && e.user_order_id == user_order_id) {
                    rest.push(e);
                }
                j += 1;
            }
            assert(level@.take(j as int) =~= level@);
            assert(s.take(i + 1).drop_last() =~= s.take(i as int));
            let ghost before = kept@;
            if rest.len() > 0 {
                kept.push(rest);
                assert(levels_view(kept@) =~= levels_view(before).push(rest@));
            }
            i += 1;
        }
        assert(s.take(i as int) =~= s);
        self.levels = kept;
    }
}

} // verus!
