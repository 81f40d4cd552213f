use vstd::prelude::*;
use crate::order::{Order, OrderModel};

verus! {

/// What decoding a submission payload yields: the order the text describes,
/// or nothing when the text is not a well-formed order. The payload is a JSON
/// object with the string fields `account_id`, `amount`, `sell_token` and
/// `buy_token`; the result is a function of the text alone.
pub uninterp spec fn json_order_of(s: Seq<char>) -> Option<OrderModel>;

/// The submission payload was not a well-formed order. The submission that
/// saw it wrote nothing into either index.
#[derive(Debug, Clone, Copy, PartialEq, Eq, Structural)]
pub struct DecodeError;

/// Relies on serde_json::from_str together with serde_json::Value::get and
/// Value::as_str: parses the payload as JSON and reads the four string fields
/// of the order object. The parse is a deterministic function of the text, so
/// its outcome is named by [`json_order_of`].
#[verifier::external_body]
pub(crate) fn decode_order(payload: &String) -> (r: Option<Order>)
    ensures
        (r matches Some(o) ==> json_order_of(payload@) == Some(o@)),
        (r is None ==> json_order_of(payload@) is None),
{
    let v: serde_json::Value = match serde_json::from_str(payload.as_str()) {
        Ok(v) => v,
        Err(_) => return None,
    };
    let account_id = v.get("account_id")?.as_str()?.to_owned();
    let amount = v.get("amount")?.as_str()?.to_owned();
    let sell_token = v.get("sell_token")?.as_str()?.to_owned();
    let buy_token = v.get("buy_token")?.as_str()?.to_owned();
    Some(Order { account_id, amount, sell_token, buy_token })
}

} // verus!
