//! Interpretation of one input record (its fields, already split) as a request to the
//! engine.
use vstd::prelude::*;
use vstd::string::{StrSliceExecFns, StringExecFns};
use crate::order::{CancelOrder, NewOrder};
use crate::text::{has_prefix, number_of, parse_u64, starts_with, trim, trimmed};

verus! {

/// Why a record could not be read.
#[derive(Clone, Copy, Debug, PartialEq, Eq, Structural)]
pub enum RecordError {
    /// A new-order record without 7 fields, or a cancel record without 3.
    FieldCount,
    /// A field that must be a number is not one.
    Number,
    /// The side field does not start with `B` or `S`.
    Side,
    /// A new order of zero quantity.
    ZeroQuantity,
}

/// What a record asks for.
#[derive(Clone, Debug)]
pub enum Request {
    /// A comment line, to be written out as it stands.
    Echo(String),
    New(NewOrder),
    Cancel(CancelOrder),
    Flush,
    /// A record of no known type.
    Skip,
}

/// Mathematical value of a `Request`.
pub enum RequestView {
    Echo(Seq<char>),
    New { user: u64, symbol: Seq<char>, price: u64, qty: u64, side: char, user_order_id: u64 },
    Cancel(CancelOrder),
    Flush,
    Skip,
}

impl View for Request {
    type V = RequestView;

    open spec fn view(&self) -> RequestView {
        match self {
            Request::Echo(s) => RequestView::Echo(s@),
            Request::New(o) => RequestView::New {
                user: o.user,
                symbol: o.symbol@,
                price: o.price,
                qty: o.qty,
                side: o.side,
                user_order_id: o.user_order_id,
            },
            Request::Cancel(c) => RequestView::Cancel(*c),
            Request::Flush => RequestView::Flush,
            Request::Skip => RequestView::Skip,
        }
    }
}

/// All fields joined with nothing between them.
pub open spec fn joined(f: Seq<Seq<char>>) -> Seq<char>
    decreases f.len(),
{
    if f.len() == 0 {
        seq![]
    } else {
        joined(f.drop_last()) + f.last()
    }
}

/// A new-order record: `N, user, symbol, price, qty, side, user_order_id`, fields trimmed.
pub open spec fn new_request(f: Seq<Seq<char>>) -> Result<RequestView, RecordError> {
    if f.len() != 7 {
        Err(RecordError::FieldCount)
    } else {
        let user = number_of(trimmed(f[1]));
        let price = number_of(trimmed(f[3]));
        let qty = number_of(trimmed(f[4]));
        let side = trimmed(f[5]);
        let user_order_id = number_of(trimmed(f[6]));
        if user is None || price is None || qty is None {
            Err(RecordError::Number)
        } else if side.len() == 0 || !(side[0] == 'B' || side[0] == 'S') {
            Err(RecordError::Side)
        } else if user_order_id is None {
            Err(RecordError::Number)
        } else if qty->0 == 0 {
            Err(RecordError::ZeroQuantity)
        } else {
            Ok(
                RequestView::New {
                    user: user->0,
                    symbol: trimmed(f[2]),
                    price: price->0,
                    qty: qty->0,
                    side: side[0],
                    user_order_id: user_order_id->0,
                },
            )
        }
    }
}

/// A cancel record: `C, user, user_order_id`, fields trimmed.
pub open spec fn cancel_request(f: Seq<Seq<char>>) -> Result<RequestView, RecordError> {
    if f.len() != 3 {
        Err(RecordError::FieldCount)
    } else {
        let user = number_of(trimmed(f[1]));
        let user_order_id = number_of(trimmed(f[2]));
        if user is None || user_order_id is None {
            Err(RecordError::Number)
        } else {
            Ok(RequestView::Cancel(CancelOrder { user: user->0, user_order_id: user_order_id->0 }))
        }
    }
}

/// What a record asks for, by its first field: `#name: ` echoes the record's fields
/// joined; `#descr:` echoes the first field, then a comma and the second if there is one;
/// `N`, `C` and `F` are a new order, a cancel and a flush; anything else is skipped.
pub open spec fn request_of(f: Seq<Seq<char>>) -> Result<RequestView, RecordError> {
    if f.len() == 0 {
        Ok(RequestView::Skip)
    } else if has_prefix(f[0], "#name: "@) {
        Ok(RequestView::Echo(joined(f)))
    } else if has_prefix(f[0], "#descr:"@) {
        Ok(
            RequestView::Echo(
                if f.len() > 1 {
                    f[0] + ","@ + f[1]
                } else {
                    f[0]
                },
            ),
        )
    } else if f[0] == "N"@ {
        new_request(f)
    } else if f[0] == "C"@ {
        cancel_request(f)
    } else if f[0] == "F"@ {
        Ok(RequestView::Flush)
    } else {
        Ok(RequestView::Skip)
    }
}

/// The views of a record's fields.
pub open spec fn fields_view(fields: Seq<String>) -> Seq<Seq<char>> {
    fields.map_values(|s: String| s@)
}

/// The view of a parse result.
pub open spec fn result_view(r: Result<Request, RecordError>) -> Result<RequestView, RecordError> {
    match r {
        Ok(q) => Ok(q@),
        Err(e) => Err(e),
    }
}

/// Whether `s` is exactly `lit`.
fn is_text(s: &String, lit: &str) -> (r: bool)
    ensures
        r == (s@ == lit@),
{
    if starts_with(s, lit) && s.as_str().unicode_len() == lit.unicode_len() {
        assert(s@ =~= s@.subrange(0, lit@.len() as int));
        true
    } else {
        assert(s@ == lit@ ==> s@.subrange(0, lit@.len() as int) =~= lit@);
        false
    }
}

/// Reads a new-order record.
fn parse_new_order(fields: &Vec<String>) -> (r: Result<Request, RecordError>)
    ensures
        result_view(r) == new_request(fields_view(fields@)),
{
    let ghost f = fields_view(fields@);
    if fields.len() != 7 {
        return Err(RecordError::FieldCount);
    }
    assert(forall|k: int| 0 <= k < 7 ==> #[trigger] f[k] == fields@[k]@);
    let user = parse_u64(&trim(&fields[1]));
    let symbol = trim(&fields[2]);
    let price = parse_u64(&trim(&fields[3]));
    let qty = parse_u64(&trim(&fields[4]));
    let side_text = trim(&fields[5]);
    let user_order_id = parse_u64(&trim(&fields[6]));
    match (user, price, qty) {
        (Some(user), Some(price), Some(qty)) => {
            let side_str = side_text.as_str();
            if side_str.unicode_len() == 0 {
                return Err(RecordError::Side);
            }
            let side = side_str.get_char(0);
            if !(side == 'B' || side == 'S') {
                return Err(RecordError::Side);
            }
            match user_order_id {
                Some(user_order_id) => {
                    if qty == 0 {
                        Err(RecordError::ZeroQuantity)
                    } else {
                        Ok(Request::New(NewOrder::new(user, symbol, price, qty, side, user_order_id)))
                    }
                },
                None => Err(RecordError::Number),
            }
        },
        _ => Err(RecordError::Number),
    }
}

/// Reads a cancel record.
fn parse_cancel_order(fields: &Vec<String>) -> (r: Result<Request, RecordError>)
    ensures
        result_view(r) == cancel_request(fields_view(fields@)),
{
    let ghost f = fields_view(fields@);
    if fields.len() != 3 {
        return Err(RecordError::FieldCount);
    }
    assert(forall|k: int| 0 <= k < 3 ==> #[trigger] f[k] == fields@[k]@);
    let user = parse_u64(&trim(&fields[1]));
    let user_order_id = parse_u64(&trim(&fields[2]));
    match (user, user_order_id) {
        (Some(user), Some(user_order_id)) => Ok(Request::Cancel(CancelOrder::new(user, user_order_id))),
        _ => Err(RecordError::Number),
    }
}

/// Reads one record, given as its fields.
pub fn parse_record(fields: &Vec<String>) -> (r: Result<Request, RecordError>)
    ensures
        result_view(r) == request_of(fields_view(fields@)),
{
    let ghost f = fields_view(fields@);
    if fields.len() == 0 {
        return Ok(Request::Skip);
    }
    let first = &fields[0];
    assert(f[0] == first@);
    if starts_with(first, "#name: ") {
        let mut s = String::new();
        let mut i: usize = 0;
        while i < fields.len()
            invariant
                0 <= i <= fields@.len(),
                f == fields_view(fields@),
                s@ == joined(f.take(i as int)),
            decreases fields@.len() - i,
        {
            assert(f.take(i + 1).drop_last() =~= f.take(i as int));
            assert(f[i as int] == fields@[i as int]@);
            s.append(fields[i].as_str());
            i += 1;
        }
        assert(f.take(i as int) =~= f);
        Ok(Request::Echo(s))
    } else if starts_with(first, "#descr:") {
        let mut s = first.clone();
        if fields.len() > 1 {
            assert(f[1] == fields@[1]@);
            s.append(",");
            s.append(fields[1].as_str());
        }
        Ok(Request::Echo(s))
    } else if is_text(first, "N") {
        parse_new_order(fields)
    } else if is_text(first, "C") {
        parse_cancel_order(fields)
    } else if is_text(first, "F") {
        Ok(Request::Flush)
    } else {
        Ok(Request::Skip)
    }
}

} // verus!
