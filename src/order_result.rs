//! Result events of the engine and their one-line rendering.
use vstd::prelude::*;
use vstd::string::StringExecFns;

verus! {

/// An event produced by the engine in answer to a request.
#[allow(inconsistent_fields)]
#[derive(Clone, Debug, PartialEq, Eq)]
pub enum OrderResult {
    Acknowledgement { user: u64, user_order_id: u64 },
    Rejection { user: u64, user_order_id: u64 },
    TopOfBookChange { side: char, price: String, total_quantity: String },
    Trade {
        user_buy: u64,
        user_order_id_buy: u64,
        user_sell: u64,
        user_order_id_sell: u64,
        price: u64,
        qty: u64,
    },
}

/// Mathematical value of an `OrderResult`: its strings are seen as character sequences.
#[allow(inconsistent_fields)]
pub enum ResultView {
    Acknowledgement { user: u64, user_order_id: u64 },
    Rejection { user: u64, user_order_id: u64 },
    TopOfBookChange { side: char, price: Seq<char>, total_quantity: Seq<char> },
    Trade {
        user_buy: u64,
        user_order_id_buy: u64,
        user_sell: u64,
        user_order_id_sell: u64,
        price: u64,
        qty: u64,
    },
}

impl View for OrderResult {
    type V = ResultView;

    open spec fn view(&self) -> ResultView {
        match self {
            OrderResult::Acknowledgement { user, user_order_id } => ResultView::Acknowledgement {
                user: *user,
                user_order_id: *user_order_id,
            },
            OrderResult::Rejection { user, user_order_id } => ResultView::Rejection {
                user: *user,
                user_order_id: *user_order_id,
            },
            OrderResult::TopOfBookChange { side, price, total_quantity } =>
                ResultView::TopOfBookChange {
                    side: *side,
                    price: price@,
                    total_quantity: total_quantity@,
                },
            OrderResult::Trade {
                user_buy,
                user_order_id_buy,
                user_sell,
                user_order_id_sell,
                price,
                qty,
            } => ResultView::Trade {
                user_buy: *user_buy,
                user_order_id_buy: *user_order_id_buy,
                user_sell: *user_sell,
                user_order_id_sell: *user_order_id_sell,
                price: *price,
                qty: *qty,
            },
        }
    }
}

/// The views of a sequence of results, in order.
pub open spec fn views_of(rs: Seq<OrderResult>) -> Seq<ResultView> {
    rs.map_values(|r: OrderResult| r@)
}

/// The decimal digit for `d < 10`.
pub open spec fn digit(d: nat) -> char {
    seq!['0', '1', '2', '3', '4', '5', '6', '7', '8', '9'][d as int]
}

/// Base-10 text of `n`, without sign or leading zeros.
pub open spec fn decimal(n: nat) -> Seq<char>
    decreases n,
{
    if n < 10 {
        seq![digit(n)]
    } else {
        decimal(n / 10).push(digit(n % 10))
    }
}

/// The canonical one-line rendering of a result, fields separated by a comma and a space.
pub open spec fn render(r: ResultView) -> Seq<char> {
    match r {
        ResultView::Acknowledgement { user, user_order_id } =>
            "A, "@ + decimal(user as nat) + ", "@ + decimal(user_order_id as nat),
        ResultView::Rejection { user, user_order_id } =>
            "R, "@ + decimal(user as nat) + ", "@ + decimal(user_order_id as nat),
        ResultView::TopOfBookChange { side, price, total_quantity } =>
            "B, "@ + seq![side] + ", "@ + price + ", "@ + total_quantity,
        ResultView::Trade {
            user_buy,
            user_order_id_buy,
            user_sell,
            user_order_id_sell,
            price,
            qty,
        } => "T, "@ + decimal(user_buy as nat) + ", "@ + decimal(user_order_id_buy as nat) + ", "@
            + decimal(user_sell as nat) + ", "@ + decimal(user_order_id_sell as nat) + ", "@
            + decimal(price as nat) + ", "@ + decimal(qty as nat),
    }
}

/// Relies on `u64::to_string` (through `Display`): base-10 digits, no sign, no leading zeros.
#[verifier::external_body]
pub(crate) fn decimal_text(n: u64) -> (r: String)
    ensures
        r@ == decimal(n as nat),
{
    n.to_string()
}

/// Relies on `char::to_string`: the one-character string holding `c`.
#[verifier::external_body]
fn char_text(c: char) -> (r: String)
    ensures
        r@ == seq![c],
{
    c.to_string()
}

impl OrderResult {
    /// The canonical one-line rendering of this result.
    pub fn to_string(&self) -> (r: String)
        ensures
            r@ == render(self@),
    {
        match self {
            OrderResult::Acknowledgement { user, user_order_id } => {
                let mut s = String::from_str("A, ");
                s.append(decimal_text(*user).as_str());
                s.append(", ");
                s.append(decimal_text(*user_order_id).as_str());
                s
            },
            OrderResult::Rejection { user, user_order_id } => {
                let mut s = String::from_str("R, ");
                s.append(decimal_text(*user).as_str());
                s.append(", ");
                s.append(decimal_text(*user_order_id).as_str());
                s
            },
            OrderResult::TopOfBookChange { side, price, total_quantity } => {
                let mut s = String::from_str("B, ");
                s.append(char_text(*side).as_str());
                s.append(", ");
                s.append(price.as_str());
                s.append(", ");
                s.append(total_quantity.as_str());
                s
            },
            OrderResult::Trade {
                user_buy,
                user_order_id_buy,
                user_sell,
                user_order_id_sell,
                price,
                qty,
            } => {
                let mut s = String::from_str("T, ");
                s.append(decimal_text(*user_buy).as_str());
                s.append(", ");
                s.append(decimal_text(*user_order_id_buy).as_str());
                s.append(", ");
                s.append(decimal_text(*user_sell).as_str());
                s.append(", ");
                s.append(decimal_text(*user_order_id_sell).as_str());
                s.append(", ");
                s.append(decimal_text(*price).as_str());
                s.append(", ");
                s.append(decimal_text(*qty).as_str());
                s
            },
        }
    }
}

} // verus!
